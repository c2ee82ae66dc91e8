# doc-core: a guard for `yrs` updates

The decoder of the `yrs` CRDT takes the strings in an update to be valid UTF-8. This library
looks at the bytes first. `is_update_bytes_safe` walks them by the grammar of a version 1
update, with `yrs`'s own read cursor, and accepts them only if they follow the grammar to
their last byte and every string in them is valid UTF-8. `is_update_b64_safe` does the same
for an update in base64: either alphabet, with padding or without.

The grammar is that of the default features of `yrs`: client ids are 64-bit numbers
(`small-client` off), and there are no weak links (`weak` off). The signed integers that `yrs`
cannot read without overflow are refused: those with an eleventh byte, and the negative of the
magnitude 2^63.

## Layout

- `src/wire.rs`: the number and buffer encodings, as functions of the unread bytes
- `src/grammar.rs`: the rules of the grammar, and how a walk by them is judged
- `src/reader.rs`: a read position over the `yrs` cursor
- `src/validate.rs`: the walk, and the two entry points
- `src/text.rs`: base64 text and the bytes it stands for
- `src/laws.rs`, `src/values.rs`, `src/text_laws.rs`: what holds of the guard as a whole
- `src/locality.rs`, `src/nesting.rs`: that no rule looks behind its end, and how depth bears on
  a walk, on which the laws rest
- `src/reject.rs`: the reasons for refusing an update

What is taken on trust: the contracts of the `yrs` cursor's reads (`reader.rs`), of the
`base64` engines and `str::trim` (`text.rs`), and of `str::from_utf8` (`validate.rs`).
