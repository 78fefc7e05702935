use procview::scroll::InputResult::{Idle, NeedsRedraw, NeedsUpdate};
use procview::scroll::{InputResult, NavKey, ScrollController};

#[test]
fn test_scroll_clamp() {
    let mut s = ScrollController::new();
    s.set_max_scroll(100);
    assert!(s.handle_input(NavKey::End, 24));
    assert_eq!(s.scroll_offset(), 100);
    // shrinking the content clamps the offset down to the new maximum
    s.set_max_scroll(50);
    assert_eq!(s.scroll_offset(), 50);
    s.set_max_scroll(10);
    assert_eq!(s.max_scroll(), 10);
    assert_eq!(s.scroll_offset(), 10);
    // a negative extent means nothing to scroll at all
    s.set_max_scroll(-5);
    assert_eq!(s.max_scroll(), 0);
    assert_eq!(s.scroll_offset(), 0);
}

#[test]
fn test_scroll_navigation_boundaries() {
    let mut s = ScrollController::new();
    s.set_max_scroll(10);
    assert!(s.handle_input(NavKey::End, 24));
    assert_eq!(s.scroll_offset(), 10);
    // at the bottom no downward key moves
    assert!(!s.handle_input(NavKey::Down, 24));
    assert!(!s.handle_input(NavKey::PageDown, 24));
    assert!(!s.handle_input(NavKey::End, 24));
    assert_eq!(s.scroll_offset(), 10);
    // at the top no upward key moves
    assert!(s.handle_input(NavKey::Home, 24));
    assert!(!s.handle_input(NavKey::Up, 24));
    assert!(!s.handle_input(NavKey::PageUp, 24));
    assert!(!s.handle_input(NavKey::Home, 24));
    assert_eq!(s.scroll_offset(), 0);
}

#[test]
fn test_scroll_steps() {
    let mut s = ScrollController::new();
    s.set_max_scroll(100);
    assert!(s.handle_input(NavKey::Down, 24));
    assert_eq!(s.scroll_offset(), 1);
    // a page is a third of the viewport
    assert!(s.handle_input(NavKey::PageDown, 9));
    assert_eq!(s.scroll_offset(), 4);
    assert!(s.handle_input(NavKey::Up, 9));
    assert_eq!(s.scroll_offset(), 3);
    assert!(s.handle_input(NavKey::PageUp, 9));
    assert_eq!(s.scroll_offset(), 0);
    assert!(!s.handle_input(NavKey::Other, 9));
    assert_eq!(s.scroll_offset(), 0);
}

#[test]
fn test_scrollbar_degenerate() {
    let s = ScrollController::new();
    // with no room to scroll there is no indicator, and no division
    assert_eq!(s.scrollbar_shape(24), None);
}

#[test]
fn test_scrollbar_shape() {
    let mut s = ScrollController::new();
    s.set_max_scroll(2);
    assert!(s.handle_input(NavKey::Down, 24));
    // offset 1 of 2 on a 10-cell track: five full cells, no fraction
    assert_eq!(s.scrollbar_shape(10), Some((5, 0)));
    // offset 1 of 3 on a 10-cell track: three full cells and a third of a
    // cell, which rounds to shading level 3 of 8
    s.set_max_scroll(3);
    assert_eq!(s.scrollbar_shape(10), Some((3, 3)));
}

#[test]
fn test_input_result_combine() {
    assert_eq!(NeedsRedraw.combine(NeedsUpdate), NeedsUpdate);
    assert_eq!(NeedsUpdate.combine(Idle), NeedsUpdate);
    assert_eq!(NeedsRedraw.combine(Idle), NeedsRedraw);
    assert_eq!(Idle.combine(Idle), Idle);
}

#[test]
fn test_input_result_from_bool() {
    assert_eq!(InputResult::from(true), InputResult::NeedsRedraw);
    assert_eq!(InputResult::from(false), InputResult::Idle);
}
