# isojson

Fast JSON for CPython that works in per-interpreter-GIL sub-interpreters, with its
logic proved in Verus.

- `dumps` writes `str`, `int`, `float`, `bool`, `None`, `dict`, `list`, `tuple`,
  `datetime`, `date`, `time`, and numpy arrays and scalars; everything else goes to
  `default`.
- `loads` reads `bytes`, `bytearray`, `memoryview` and `str`.

## Layout

`src/` is the verified library. It holds no Python object: it works on bytes, integers
and addresses.

| module | what it holds |
|---|---|
| `encode` | the encoder, as a machine that says what is to be read from Python next |
| `document` | the encoder run over values in memory, and the text of a whole document |
| `escape`, `number`, `float`, `literal`, `indent`, `out` | the pieces of the text |
| `datetime`, `calendar`, `iso`, `offset` | dates, times, offsets and `datetime64` |
| `numpy`, `decline`, `little_endian` | arrays and scalars, and why one is not written |
| `sort`, `code_points` | the order of sorted keys |
| `grammar`, `accept`, `double`, `meaning`, `readable`, `utf8_text`, `round_trip` | what JSON texts stand for: what is written can be read, and reads back |
| `tape`, `decode`, `loads`, `key_cache` | from bytes to a document |
| `types`, `module`, `args`, `opts`, `messages`, `strfast`, `swar` | what the module keeps, its arguments and options, its messages, and reading bytes in words |

What the library takes from other crates without proof stands in doc comments that begin
with the name of the outside function: `itoa_format`, `to_tape`, `error_name`,
`simd_json::Error::index` and `from_utf8_lossy`.

`app/` is the extension module around it: it reads and makes Python objects by the C API
and formats floats.

`tests/` runs the library with the real crates.
