# vortex_mod_1fichier

The 1fichier hoster plugin for the Vortex download manager, with its logic
verified by Verus.

The plugin resolves `https://1fichier.com/?<id>` URLs in two modes:

- **Premium**: with an API key from the host's credential store, it asks
  `https://api.1fichier.com/v1/download/get_token.cgi` for a one-shot direct
  CDN URL.
- **Free**: without a key, or when the API rejects the key as invalid or
  expired, it reads the public landing page and reports the file name, the
  size, the wait countdown and whether a captcha is shown; the host owns the
  wait and the captcha.

## Layout

- `src/` is the verified library:
  - `url_matcher.rs`: the URL grammar (scheme, authority, host, path, query,
    fragment, file id) and its laws;
  - `landing.rs`: the landing page grammar (offline phrases, captcha markers,
    labelled cells, the three forms of the wait countdown) and its laws;
  - `size.rs`: human-readable sizes, read in exact decimal arithmetic and
    rounded to the nearest byte;
  - `free_mode.rs`: the host's HTTP envelope, message truncation, the
    landing page reader and the landing page request;
  - `premium_mode.rs`: the token request (with its JSON body), the reading of
    the token answer and of the credential;
  - `mode.rs`: the mode selection steps between the host calls;
  - `lib.rs`: routing answers and the `extract_links` responses;
  - `text.rs`: characters, classes, runs, searching and decimal numbers.
- `app/` holds what runs around it: JSON through `serde`, the error messages
  through `thiserror`, and the Extism entry points that call the host.
- `tests/` runs the library, including a comparison of its grammars with
  the page's regular expressions on generated texts.
