use tactom::{equal_spaced_evs, glyph_duration, retime_eq_spaced, stitch_evs, Ev, EvType, END_GLYPH};

fn evs(pairs: &[(u16, u8)]) -> Vec<Ev> {
    pairs.iter().map(|&(t, k)| Ev::new(t, k)).collect()
}

#[test]
fn equal_spaced_four_triggers() {
    let g = equal_spaced_evs(&[3, 6, 5, 8], 30);
    assert_eq!(g, evs(&[(0, 3), (30, 6), (60, 5), (90, 8), (120, END_GLYPH)]));
}

#[test]
fn equal_spaced_each_event_at_index_times_spacing() {
    let triggers = [0u8, 4, 8, 9, 10, 11, 7];
    let g = equal_spaced_evs(&triggers, 250);
    assert_eq!(g.len(), triggers.len() + 1);
    for (i, t) in triggers.iter().enumerate() {
        assert_eq!(g[i].ms_time as usize, i * 250);
        assert_eq!(g[i].ev_type, *t);
    }
    assert_eq!(g[triggers.len()], Ev::new(1750, END_GLYPH));
}

#[test]
fn equal_spaced_empty_is_lone_sentinel() {
    assert_eq!(equal_spaced_evs(&[], 40), evs(&[(0, END_GLYPH)]));
}

#[test]
fn equal_spaced_at_the_width_limit() {
    let g = equal_spaced_evs(&[1, 2, 3], 21845);
    assert_eq!(g, evs(&[(0, 1), (21845, 2), (43690, 3), (65535, END_GLYPH)]));
}

#[test]
fn stitch_two_single_motor_glyphs() {
    let a = equal_spaced_evs(&[0], 50);
    let b = equal_spaced_evs(&[1], 50);
    let s = stitch_evs(&[&a, &b]);
    assert_eq!(s, evs(&[(0, 0), (50, 1), (100, END_GLYPH)]));
}

#[test]
fn stitch_duration_is_sum_of_durations() {
    let a = equal_spaced_evs(&[8, 4, 0], 30);
    let b = evs(&[(0, 2), (10, 3), (75, 5), (400, END_GLYPH)]);
    let s = stitch_evs(&[&a, &b]);
    assert_eq!(glyph_duration(&s), glyph_duration(&a) + glyph_duration(&b));
    assert_eq!(glyph_duration(&s), 490);
    assert_eq!(
        s,
        evs(&[(0, 8), (30, 4), (60, 0), (90, 2), (100, 3), (165, 5), (490, END_GLYPH)])
    );
}

#[test]
fn stitch_single_glyph_is_unchanged() {
    let a = evs(&[(0, 1), (0, 5), (40, 9), (100, 2), (130, END_GLYPH)]);
    assert_eq!(stitch_evs(&[&a]), a);
}

#[test]
fn stitch_nothing_is_lone_sentinel() {
    assert_eq!(stitch_evs(&[]), evs(&[(0, END_GLYPH)]));
}

#[test]
fn stitch_three_glyphs_back_to_back() {
    let a = equal_spaced_evs(&[8, 4, 0], 30);
    let b = equal_spaced_evs(&[1, 5, 9], 30);
    let c = equal_spaced_evs(&[10, 6, 2], 30);
    let s = stitch_evs(&[&a, &b, &c]);
    let times: Vec<u16> = s.iter().map(|e| e.ms_time).collect();
    let tags: Vec<u8> = s.iter().map(|e| e.ev_type).collect();
    assert_eq!(times, vec![0, 30, 60, 90, 120, 150, 180, 210, 240, 270]);
    assert_eq!(tags, vec![8, 4, 0, 1, 5, 9, 10, 6, 2, END_GLYPH]);
}

#[test]
fn retime_keeps_order_and_tags() {
    let g = evs(&[(0, 3), (5, 7), (90, 7), (91, 11), (300, END_GLYPH)]);
    let r = retime_eq_spaced(&g, 150);
    assert_eq!(r.len(), g.len());
    for (i, e) in r.iter().enumerate() {
        assert_eq!(e.ms_time as usize, i * 150);
        assert_eq!(e.ev_type, g[i].ev_type);
    }
}

#[test]
fn retime_to_zero_spacing() {
    let g = equal_spaced_evs(&[1, 2], 30);
    assert_eq!(retime_eq_spaced(&g, 0), evs(&[(0, 1), (0, 2), (0, END_GLYPH)]));
}

#[test]
fn retime_empty() {
    assert!(retime_eq_spaced(&[], 30).is_empty());
}

#[test]
fn duration_of_empty_and_of_glyph() {
    assert_eq!(glyph_duration(&[]), 0);
    assert_eq!(glyph_duration(&equal_spaced_evs(&[1, 2, 3, 4], 25)), 100);
    assert_eq!(glyph_duration(&evs(&[(10, 1), (70, 2)])), 70);
}

#[test]
fn event_type_tags() {
    assert_eq!(EvType::Go0.tag(), 0);
    assert_eq!(EvType::Go7.tag(), 7);
    assert_eq!(EvType::Go11.tag(), 11);
    assert_eq!(EvType::EndGlyph.tag(), END_GLYPH);
}
