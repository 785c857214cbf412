use algorithms::candlestick::chart_render::{CandleType, ChartRender};
use algorithms::candlestick::yaxis::{YAxis, WIDTH};

#[test]
fn empty_axis_line() {
    assert_eq!("          |     ", YAxis::render_empty());
    assert_eq!(17, WIDTH);
}

#[test]
fn candle_colours() {
    let r = ChartRender::new();
    assert_eq!((52, 208, 88), r.color_of(&CandleType::Bullish));
    assert_eq!((234, 74, 90), r.color_of(&CandleType::Bearish));
    let painted = r.colorize(&CandleType::Bullish, "x");
    assert!(
        painted == "x"
            || painted == "\u{1b}[38;2;52;208;88mx\u{1b}[0m"
            || painted == "\u{1b}[32mx\u{1b}[0m"
    );
    let painted = r.colorize(&CandleType::Bearish, "x");
    assert!(
        painted == "x"
            || painted == "\u{1b}[38;2;234;74;90mx\u{1b}[0m"
            || painted == "\u{1b}[91mx\u{1b}[0m"
    );
}
