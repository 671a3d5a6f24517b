# anydoc: HTML and MHTML frontends

The library reads a standalone HTML document or an MHTML/MHT archive into a
document model: the body as a flat tree (nodes in document order with their
depths), the stylesheets in document order, the embedded image assets, and
the context that resolves image and link references.

`src/` is verified by Verus: the functions that make up the library's
logic carry contracts that Verus proves, and the calls into
outside crates go through a small number of trusted wrappers whose
contracts Verus takes on trust. The modules:

- `text`, `tags`: character classes, trimming, case folding, decimal
  messages, and the HTML element-name tables.
- `preflight`: the model of the HTML tree builder's stack of open elements
  that bounds node count and nesting depth before a tree is built.
- `charset`: choosing and applying the document's encoding.
- `dom`: the parsed HTML document as a node list, and queries over it.
- `html`: adapting the parse into the document tree within the limits.
- `mime`: MIME header scanning and the allocation preflight for base64
  bodies and nested multiparts.
- `uri`: Content-ID keys, reference resolution, path normalization.
- `mhtml`, `resources`: the archive's parts, their transfer decoding, the
  resource index, stylesheets, images, and the archive conversion.

The outside crates (`encoding_rs`, `scraper`, `mail_parser`) and a few std
conversions are reached only through those trusted wrappers; their
contracts say what the outside function returns or give its result a name,
and nothing about them is proved.
`app/` holds the tokenizer pass over `html5ever` that drives the verified
complexity model, and the two entry points.
