use ffrwd::depth::{grid_shape, to_frame, validate_params, GridError};
use ffrwd::pixel::PixFmt;

#[test]
fn a_grey_map_writes_neutral_chroma_and_opaque_alpha() {
    let grey = vec![40u8; 4 * 4];
    let yuv = to_frame(&grey, PixFmt::Yuv420p, 4, 4, 4 * 4 + 2 * 2 * 2);
    assert!(
        yuv[..16].iter().all(|v| *v == 40),
        "the luma plane is the map"
    );
    assert!(
        yuv[16..].iter().all(|v| *v == 128),
        "and the chroma is neutral"
    );

    let rgba = to_frame(&grey, PixFmt::Rgba, 4, 4, 4 * 4 * 4);
    for pixel in rgba.chunks_exact(4) {
        assert_eq!(
            *pixel,
            [40, 40, 40, 255],
            "equal in every channel, and opaque"
        );
    }
}

#[test]
fn each_grey_value_lands_on_its_own_pixel() {
    let grey = [1u8, 2, 3, 4];
    assert_eq!(
        to_frame(&grey, PixFmt::Rgba, 2, 2, 16),
        vec![1, 1, 1, 255, 2, 2, 2, 255, 3, 3, 3, 255, 4, 4, 4, 255]
    );
    assert_eq!(
        to_frame(&grey, PixFmt::Yuv420p, 2, 2, 6),
        vec![1, 2, 3, 4, 128, 128]
    );
    // A payload longer than the picture keeps its tail at zero in rgba.
    assert_eq!(to_frame(&[9], PixFmt::Rgba, 1, 1, 6), vec![9, 9, 9, 255, 0, 0]);
}

#[test]
fn no_params_or_an_empty_object_are_accepted() {
    for written in ["", "{}", "  ", " {} \n", "\t"] {
        assert!(validate_params(written).is_ok(), "{written:?}");
    }
}

#[test]
fn any_param_is_refused_with_what_was_written() {
    let Err(message) = validate_params(r#"  {"gain":2} "#) else {
        panic!("a param should have been refused");
    };
    assert_eq!(message, r#"depth takes no params, got: {"gain":2}"#);
    assert!(validate_params("{ }").is_err(), "only the empty object itself");
    assert!(validate_params("[]").is_err());
}

#[test]
fn a_depth_map_shape_comes_from_three_dimensions_or_four() {
    let data = vec![0u8; 6 * 4];
    assert_eq!(grid_shape(&[1, 2, 3], &data), Ok((2, 3)));
    assert_eq!(grid_shape(&[1, 1, 2, 3], &data), Ok((2, 3)));
    // A trailing partial float is not a value.
    assert_eq!(grid_shape(&[1, 2, 3], &data[..23]), Err(GridError::Short { values: 5, height: 2, width: 3 }));
}

#[test]
fn a_map_of_any_other_rank_is_refused() {
    assert_eq!(grid_shape(&[6], &[0; 24]), Err(GridError::Rank(1)));
    assert_eq!(grid_shape(&[1, 1, 1, 2, 3], &[0; 24]), Err(GridError::Rank(5)));
    assert_eq!(grid_shape(&[], &[]), Err(GridError::Rank(0)));
}
