# sulafat_core

A verified library for reading and surgically editing `~/.ssh/config`, the host store of the
Sulafat SSH client. Every public function carries a Verus contract. The promises proved are
those named below: parsing and rendering round-trip; saving a host read from the file, once or
twice, leaves the file byte for byte as it was; what a save writes reads back as the host that
was saved; an unchanged field keeps its line; advanced lines are matched by the one longest
common subsequence the Hirschberg split picks, so a line edited on its own keeps its slot and
terminator, kept lines never move across a known field, changed lines take the old slots, and
added lines go after the last slot replaced in their gap, else before the next kept line. Comparing with the effective configuration of `ssh -G` needs a
process and is not stated.

## Layout

- `src/text.rs`: whitespace, terminators, words and ASCII case-insensitive comparison, as spec
  functions over `Seq<char>` with executable counterparts.
- `src/model.rs`: the document model (`Segment`, `ManagedBlock`, `BlockLine`, `RawLine`,
  `SshHost`, `KnownDirective`) and the views the contracts speak of.
- `src/parser.rs`: cutting a document into lines and segments, classifying block bodies,
  rendering; `law_render_parse_roundtrip`.
- `src/host.rs`: reading an `SshHost` out of a managed block (values, port, advanced text).
- `src/lcs.rs`: longest common subsequences, their matchings and the Hirschberg split.
- `src/writer.rs`: editing blocks in place (fields, advanced text, alias), appending and removing
  blocks; `hirschberg`, the matching the editor picks; `replace_extra_lines` and its one-line
  edit clause, `law_extras_one_change` and `law_rewrite_one_advanced_line` for the same
  promise on a whole save; `law_rewrite_read_host_is_identity`,
  `law_upsert_read_host_keeps_document`, `law_upsert_read_host_keeps_parse`,
  `law_second_upsert_keeps_document`.
- `src/readback.rs`: what a write gives back to a read: `law_rewrite_reads_back`,
  `law_new_block_reads_back`, `law_upsert_reads_back`, `law_unchanged_field_keeps_its_line`.
- `src/form.rs`: the pure parts of the host form and host list (the host and group the form
  saves, the port kept, the `sftp://` location, the alias of a duplicate).
- `app/main.rs`: a small command-line front end that reads and writes the file.
