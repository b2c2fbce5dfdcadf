# sudo2fa (verified core)

A setuid TOTP authorization helper for Linux: a six-digit RFC 6238 code, or
a short-lived HMAC-signed token minted with one, authorizes a command as
root. The library under `src/` holds every decision the tool makes, each
with a Verus contract; `app/main.rs` is the binary, which only reads files,
runs programs and prints.

| module     | what it decides |
|------------|-----------------|
| `crypto`   | SHA-1 and HMAC-SHA1, against the FIPS 180-4 / RFC 2104 definitions |
| `totp`     | codes, the acceptance window (current step, two before, one after), and single use: the step of the last accepted code and its state text |
| `token`    | token layout, minting and checking (MAC, parent binding, expiry) |
| `base64`   | URL-safe unpadded base64 of tokens |
| `base32`   | RFC 4648 base32 of stored secrets |
| `keyfile`  | the `UID:BASE32` store: lookup, replacing one record, otpauth URI, whose key is used and which record `setup` replaces |
| `cli`      | argument grammar, authorization (refusing a used code), what to run |
| `procinfo` | uid and parent pid from `/proc`, uid from `id -u` |
| `throttle` | the failed-attempt window and its state text |
| `qr`       | GF(2^8) arithmetic, Reed-Solomon codewords as a polynomial remainder, QR Version 5-L encoding, SVG and terminal rendering |
| `text`, `split` | decimal rendering and parsing, trimming, lines and words as std defines them |
| `clock`    | the wall clock |

Proved properties that span functions stand as public proof functions, for
instance `base64::decode_encode_round_trip`, `token::issued_token_verifies`,
`totp::current_code_accepted`, `cli::code_authorizes_once`,
`qr::gf_field_laws`, `qr::ec_codewords_linear` and
`keyfile::replaced_record_is_found`.
