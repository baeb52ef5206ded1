//! Verified core of the OxiMedia media graph, broadcast graphics and HDR metadata
//! components: processing-graph bookkeeping and scheduling, graph statistics, frame
//! pooling, scoreboard state and overlay strips, text and font descriptors and font
//! resolution, Dolby Vision RPU bit packing and SEI framing, timecode labels and
//! calendar dates, telecine cadence logic, per-frame IVTC bookkeeping and field operations (weaving, motion
//! search, combing and field measures), LUT descriptors, the LUT cache, the `.cube`,
//! CSV and `.3dl` table readers, logo-region descriptors, median filtering, edge detection,
//! motion-compensated temporal denoising and noise measures, and colour-histogram
//! counting.

pub mod decimal;
pub mod font_metrics;
pub mod sorting;
pub mod processing_graph;
pub mod graph_stats;
pub mod scoreboard;
pub mod text_renderer;
pub mod text_layout;
pub mod text;
pub mod dovi_rpu;
pub mod rational;
pub mod timecode;
pub mod ivtc;
pub mod lut;
pub mod delogo;
pub mod denoise;
pub mod grading;
pub mod svg_renderer;
pub mod frame;
pub mod fields;
pub mod temporal_denoise;
pub mod lut_3dl;
pub mod edge;
pub mod lut_cube;
