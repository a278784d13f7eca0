use lognplot::layout::{chart_for_key, visible_charts, LayoutVariation};

#[test]
fn layout_visible_charts() {
    assert_eq!(visible_charts(LayoutVariation::_1x1), [true, false, false, false, false, false]);
    assert_eq!(visible_charts(LayoutVariation::_1x2), [true, true, false, false, false, false]);
    assert_eq!(visible_charts(LayoutVariation::_2x1), [true, false, true, false, false, false]);
    assert_eq!(visible_charts(LayoutVariation::_2x2), [true, true, true, true, false, false]);
    assert_eq!(visible_charts(LayoutVariation::_3x2), [true; 6]);
}

#[test]
fn layout_chart_keys() {
    assert_eq!(chart_for_key('1'), Some(1));
    assert_eq!(chart_for_key('9'), Some(9));
    assert_eq!(chart_for_key('A'), Some(10));
    assert_eq!(chart_for_key('F'), Some(15));
    assert_eq!(chart_for_key('0'), None);
    assert_eq!(chart_for_key('G'), None);
    assert_eq!(chart_for_key('a'), None);
    assert_eq!(chart_for_key(' '), None);
}
