# mimo-proxy

A local proxy for the MiMo API. In its thinking mode that API wants every assistant message that
calls tools sent back with its `reasoning_content`, which most clients drop. The proxy remembers the
reasoning texts of responses and puts them back into later chat requests, or an empty text where it
remembers none. It also cleans request paths (`/v1%20%20/chat/completions` goes to
`/chat/completions`) and turns a bearer token into the `api-key` field.

`src/` is the logic, verified with Verus:

- `text`: comparing, trimming, searching, numerals
- `json`, `wire`: JSON documents, and serde_json's reading and writing of them
- `route`: from the client's path to the URL upstream
- `headers`: the header fields that are passed on, the API key, the kind of a body
- `cache`: the bounded cache of reasoning texts and its keys
- `messages`: filling in and remembering reasoning texts
- `log`, `status`: what the proxy shows of its traffic and of itself
- `proxy`: a request's way upstream and a response's way back
- `*_laws`: what holds of these together

`app/` is the server: sockets, clock, environment variables (`MIMO_TARGET_URL`, `MIMO_API_KEY`) and
log. It listens on `127.0.0.1:8899`.
