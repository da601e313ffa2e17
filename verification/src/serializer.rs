pub mod chart_ole;
pub mod chart_preview;
pub mod chart_xml;
pub mod mini_cfb;
pub mod wmf_writer;
