# rhwp chart embedding

Verified building blocks for inserting a chart into an HWP document as an
OLE object, the way Hancom stores its own charts:

- `serializer::chart_xml` — the `OOXMLChartContents` stream, a DrawingML
  `c:chartSpace` document, with XML escaping of all user text;
- `serializer::wmf_writer` — the preview picture: a 24-bit bottom-up DIB
  in a one-record Windows Metafile, and the OLE presentation stream around it;
- `serializer::mini_cfb` — a small compound file writer for the object's
  streams;
- `serializer::chart_ole` — the object itself, preview and XML in one
  compound file;
- `serializer::chart_preview` — rasterizing the chart drawing with resvg;
- `document_core::commands::object_ops::chart` — the checks and values of
  a chart insertion.

Every function in `src/` but the few trusted wrappers around resvg,
tiny-skia and `String::push` is verified with Verus against a specification
over byte and character sequences; the laws (record layout of the metafile,
lossless escaping, stream placement in the compound file, ...) are proof
functions beside the code. `app/` holds what reads the disk (system fonts)
and what handles floating-point chart values.
