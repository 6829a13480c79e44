# pear

A small static file server for frontend builds, with a fallback to `index.html` for
single-page applications, a reverse proxy, keep-alive, and two runtimes: one that waits
for the events of all clients at once, and one with a thread for each client.

Everything that the server decides or computes is in `src/`, a library that is verified
with Verus. Input and output are in `app/`, ordinary Rust that does what the library says
and tells it what came of it.

## Layout of the library

| Module         | What it is about                                                        |
|----------------|-------------------------------------------------------------------------|
| `text`         | finding, splitting, trimming and comparing characters                   |
| `number`       | reading and writing numbers                                             |
| `bytes`        | UTF-8, and where the head of a message ends                             |
| `request`      | reading requests, and what their headers say                            |
| `response`     | writing responses                                                       |
| `message`      | what is written reads back: lines, headers, framing                     |
| `path`         | which path a request asks for, and the type of a file                   |
| `rule`         | proxy rules: which requests go upstream, and under what target          |
| `toml`         | the values of a configuration file                                      |
| `config`       | the configuration: defaults, file and command line                      |
| `notation`     | the two ways to write proxy rules in a configuration file mean the same |
| `runtime`      | the limits that a server keeps to                                       |
| `static_files` | which file answers a request, step by step                              |
| `upstream`     | what is sent to an upstream server, and what becomes of its answer      |
| `tls`          | TLS sessions with upstream servers                                      |
| `clients`      | the open connections of the event-driven runtime                        |
| `connection`   | a client's connection in the event-driven runtime                       |
| `blocking`     | a client's connection in the runtime with threads                       |
| `server`       | routes, events, who is let in, and what is said at the start            |

Contracts speak of views: a `str` is a `Seq<char>`, a buffer a `Seq<u8>`, and each data
type has a view of its own. Functions whose names start with `law_` state what holds of
several functions together. The only contracts that are taken on trust are those of two
functions of the standard library, in `text` and `bytes`, and of `rustls` and
`webpki-roots`, in `tls`.
