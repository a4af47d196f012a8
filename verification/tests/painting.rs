use diveno::game::bingo_grid::Bingo;
use diveno::game::bingo_painter::bingo_index;
use diveno::game::digit_tool::{digit_tex_rects, TexRect, GAP_TEX_S, GAP_TEX_T};
use diveno::game::quad_tool::{quad_indices, quads_to_allocate};

#[test]
fn quad_indices_draw_two_triangles_per_quad() {
    assert_eq!(quad_indices(0), Vec::<u16>::new());
    assert_eq!(
        quad_indices(2),
        vec![0, 1, 2, 2, 1, 3, 4, 5, 6, 6, 5, 7]
    );
    let last = quad_indices(16384);
    assert_eq!(last.len(), 16384 * 6);
    assert_eq!(&last[last.len() - 6..], &[65532, 65533, 65534, 65534, 65533, 65535]);
}

#[test]
fn element_buffer_grows_by_doubling() {
    assert_eq!(quads_to_allocate(None, 0), Some(1));
    assert_eq!(quads_to_allocate(None, 1), Some(1));
    assert_eq!(quads_to_allocate(None, 5), Some(8));
    assert_eq!(quads_to_allocate(Some(8), 5), None);
    assert_eq!(quads_to_allocate(Some(8), 8), None);
    assert_eq!(quads_to_allocate(Some(8), 9), Some(16));
    assert_eq!(quads_to_allocate(Some(3), 20), Some(24));
    assert_eq!(quads_to_allocate(None, 0x8000_0000), Some(0x8000_0000));
}

#[test]
fn bingo_letters_appear_one_by_one() {
    let row = Some(Bingo::Row(1));
    // space 7 is the third space of row 1
    assert_eq!(bingo_index(7, row, None), Some(2));
    assert_eq!(bingo_index(7, None, None), None);
    assert_eq!(bingo_index(2, row, None), None);
    // a letter takes 300 ms to appear: the third shows from 600 ms on
    assert_eq!(bingo_index(7, row, Some(599)), None);
    assert_eq!(bingo_index(7, row, Some(600)), Some(2));
    assert_eq!(bingo_index(5, row, Some(0)), Some(0));
    assert_eq!(bingo_index(5, row, Some(-1)), None);
    assert_eq!(bingo_index(20, Some(Bingo::DiagonalB), Some(3000)), Some(0));
    assert_eq!(bingo_index(24, Some(Bingo::DiagonalA), Some(1200)), Some(4));
}

fn digit(d: u16) -> TexRect {
    TexRect {
        s1: (56867u32 * d as u32 / 10) as u16,
        t1: 0,
        s2: (56867u32 * (d as u32 + 1) / 10) as u16,
        t2: 65535,
    }
}

#[test]
fn digits_hide_leading_zeros() {
    let gap = TexRect { s1: GAP_TEX_S, t1: GAP_TEX_T, s2: GAP_TEX_S, t2: GAP_TEX_T };
    assert_eq!(digit_tex_rects(0, GAP_TEX_S, GAP_TEX_T), vec![digit(0), gap, gap]);
    assert_eq!(digit_tex_rects(42, GAP_TEX_S, GAP_TEX_T), vec![digit(2), digit(4), gap]);
    assert_eq!(digit_tex_rects(907, GAP_TEX_S, GAP_TEX_T), vec![digit(7), digit(0), digit(9)]);
    assert_eq!(digit_tex_rects(1234, GAP_TEX_S, GAP_TEX_T), vec![digit(4), digit(3), digit(2)]);
    assert_eq!(digit(9).s2, 56867);
    assert_eq!(digit(1).s1, 5686);
}
