# powerio_tx

Verified readers for power system exchange formats and the parts of their
writers that do not depend on a network model, written in Verus. The
library's own functions are proved against their contracts. The calls into
quick-xml, uuid and the standard library go through small wrappers whose
contracts Verus takes on trust; they say what the outside code does, and
where it takes pages to say (how quick-xml tokenizes a text), they name
the result as a function of the text.

- `text`, `decimal`, `decimal_text`: character level helpers with the exact
  meaning the standard library gives them, and exact decimal arithmetic on
  number texts.
- `json`: a JSON document as plain values, numbers kept as their text.
- `ieee_cdf`: the IEEE Common Data Format reader, from the raw text to a case
  with its findings.
- `dgs`: the DIgSILENT PowerFactory DGS V5 table export: the tokenizer, the
  document queries, the route that decides which network family an export
  justifies, and the topology of the balanced mapping: how cubicles connect
  elements (`topology`), the DC islands behind the converters (`dc`), the
  calculated buses that closed couplers form, and how elements attach to
  them (`attach`).
- `cgmes`: CGMES (IEC 61970-552 CIMXML): reading an instance file on
  quick-xml's pull parser (the document is the reader's steps folded over
  what quick-xml reads from the text), the RDF graph check of written files
  (the same fold over their RDF attributes), the
  element and attribute primitives that written documents are made of, and
  reproducible identifiers on the `uuid` crate. The network writer itself is
  not part of the library.
- `egret`, `goc3`: bus types, key orders and bus identities of the Egret and
  GO Competition Challenge 3 JSON formats; the GO Challenge 3 document with
  its sections, record uids and device rows (`goc3::document`).

Each module states its laws as public proof functions named `law_*`, or in
the contracts of the functions they are about.

`app/` holds the ordinary Rust around the library: the JSON decoding that
serde performs and the DGS topology pass that runs the verified steps in
order.
