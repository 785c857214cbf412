//! A candlestick chart drawn in the terminal: the y axis and the colours of
//! the candles.
pub mod chart_render;
pub mod yaxis;
