use codimate::export::{even_up, pad_filter};

#[test]
fn sizes_round_up_to_even() {
    assert_eq!(even_up(1080), 1080);
    assert_eq!(even_up(1687), 1688);
    assert_eq!(even_up(0), 0);
    assert_eq!(even_up(1), 2);
}

#[test]
fn the_filter_centres_a_1080p_frame() {
    assert_eq!(
        pad_filter(1688, 1080, 1920, 1080),
        "scale=1688:1080:flags=lanczos,pad=1920:1080:116:0:color=black"
    );
}

#[test]
fn a_frame_that_fills_the_output_needs_no_padding() {
    assert_eq!(pad_filter(640, 480, 640, 480), "scale=640:480:flags=lanczos,pad=640:480:0:0:color=black");
}

#[test]
fn a_tall_frame_is_padded_at_the_sides() {
    assert_eq!(pad_filter(100, 200, 300, 200), "scale=100:200:flags=lanczos,pad=300:200:100:0:color=black");
}
