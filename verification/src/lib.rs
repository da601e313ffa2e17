//! Chart embedding for HWP documents: the DrawingML chart XML, the WMF
//! preview picture and its OLE presentation stream, the OLE container that
//! carries both, and the checks made before a chart is inserted.

pub mod bytes;
pub mod document_core;
pub mod ooxml_chart;
pub mod text;
pub mod serializer;
