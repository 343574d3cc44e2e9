# rdr2_xbox_save_converter

Converts Red Dead Redemption 2 story saves downloaded from Xbox connected
storage into Windows PC saves, refusing any input it cannot convert exactly.

The library under `src/` is written in Verus. Every function in it carries a
contract, and Verus proves each one except the contracts of seven small
`#[verifier::external_body]` functions: these call the `aes`, `sha2` and
`hex` crates or std (`String::from_utf16`, collecting characters into a
`String`), and their contracts are assumed, not proved. Each one's doc comment
says what it claims of the outside function. The modules:

- `bytes`, `checksum`: word reading, per-word byte swap, and the seeded
  one-at-a-time checksum of CHKS records.
- `crypto`: AES-256-ECB over the `aes` crate and SHA-256 over `sha2`, with
  lower-case hex from `hex`.
- `text`: UTF-16 encoding and the NUL-terminated UTF-16LE text fields.
- `rsav`: the RSAV v3 payload validator (`validate_rsav` returns exactly the
  verdict `rsav_verdict` describes).
- `pc`: the PC save header, its checksum, and the PC file validator.
- `keys`: the key configuration and the parsing of the two AES keys.
- `slots`, `order`: screening ZIP members, collecting slot files and
  assembling the slots in PC file-name order.
- `convert`: the Xbox key check and the building and checking of each PC file.

`app/` is the command-line program: it reads the TOML key configuration and
the ZIP archive, and writes the output directory and its JSON manifest.
