use splat_render::backend::{check_image, AutodiffBackend, Backend, SplatParams};
use splat_render::forward::{bin_splats, ProjectedSplat};
use splat_render::records::NO_CONTRIBUTOR;
use splat_render::render_aux::RenderAux;
use splat_render::shape::{buffer_size, checked_buffer_size};
use splat_render::tiles::{ImageSize, TileGrid, TileRect};
use splat_render::words::{gather_compact, pack_rgba8, read_buffer_as_u32, unpack_rgba8, word_from_le};

#[test]
fn buffer_size_is_elements_times_element_size() {
    assert_eq!(buffer_size([2, 3, 4, 5], 4), 480);
    assert_eq!(buffer_size([7], 4), 28);
    assert_eq!(buffer_size([3, 0, 9], 4), 0);
    assert_eq!(buffer_size([], 4), 4);
    assert_eq!(buffer_size([1080, 1920, 4], 4), 33_177_600);
    assert_eq!(buffer_size([5, 6], 0), 0);
}

#[test]
fn checked_buffer_size_agrees_where_the_size_fits() {
    assert_eq!(checked_buffer_size([2, 3, 4, 5], 4), Some(480));
    assert_eq!(checked_buffer_size([], 8), Some(8));
    assert_eq!(checked_buffer_size([0, usize::MAX], 4), Some(0));
    assert_eq!(checked_buffer_size([usize::MAX, 1], 1), Some(usize::MAX));
}

#[test]
fn checked_buffer_size_reports_overflow() {
    assert_eq!(checked_buffer_size([usize::MAX, 2], 1), None);
    assert_eq!(checked_buffer_size([usize::MAX, 2, 0], 1), None);
    assert_eq!(checked_buffer_size([usize::MAX], 2), None);
    assert_eq!(checked_buffer_size([1 << 20, 1 << 20, 1 << 20, 1 << 20], 4), None);
}

#[test]
fn words_are_read_lowest_byte_first() {
    assert_eq!(read_buffer_as_u32(&[1, 0, 0, 0]), vec![1]);
    assert_eq!(read_buffer_as_u32(&[0x78, 0x56, 0x34, 0x12, 0xff, 0xff, 0xff, 0xff]), vec![0x1234_5678, u32::MAX]);
    assert_eq!(read_buffer_as_u32(&[0, 0, 0, 0x80]), vec![0x8000_0000]);
    assert_eq!(word_from_le(0xef, 0xbe, 0xad, 0xde), 0xdead_beef);
}

#[test]
fn words_agree_with_the_standard_decoding() {
    let bytes: Vec<u8> = (0..64u32).map(|i| (i * 37 + 11) as u8).collect();
    let expected: Vec<u32> =
        bytes.chunks_exact(4).map(|x| u32::from_le_bytes([x[0], x[1], x[2], x[3]])).collect();
    assert_eq!(read_buffer_as_u32(&bytes), expected);
}

#[test]
fn bytes_left_over_are_not_read() {
    assert_eq!(read_buffer_as_u32(&[]), Vec::<u32>::new());
    assert_eq!(read_buffer_as_u32(&[1, 2, 3]), Vec::<u32>::new());
    assert_eq!(read_buffer_as_u32(&[1, 0, 0, 0, 9, 9]), vec![1]);
}

#[test]
fn floats_come_back_from_their_words() {
    let values = [0.0f32, 1.5, -2.25, f32::MAX, 1e-30];
    let mut bytes = Vec::new();
    for v in values {
        bytes.extend_from_slice(&v.to_le_bytes());
    }
    let read: Vec<f32> = read_buffer_as_u32(&bytes).into_iter().map(f32::from_bits).collect();
    assert_eq!(read, values.to_vec());
}

#[test]
fn colour_packs_red_lowest() {
    assert_eq!(pack_rgba8(0x11, 0x22, 0x33, 0x44), 0x4433_2211);
    assert_eq!(pack_rgba8(255, 0, 0, 255), 0xff00_00ff);
    assert_eq!(pack_rgba8(0, 0, 0, 0), 0);
    assert_eq!(unpack_rgba8(0x4433_2211), (0x11, 0x22, 0x33, 0x44));
    for word in [0u32, 1, 0xdead_beef, u32::MAX] {
        let (r, g, b, a) = unpack_rgba8(word);
        assert_eq!(pack_rgba8(r, g, b, a), word);
    }
}

#[test]
fn rows_are_gathered_in_compact_order() {
    let dense = vec![10, 11, 20, 21, 30, 31, 40, 41];
    assert_eq!(gather_compact(&dense, 2, &vec![1, 3]), vec![20, 21, 40, 41]);
    assert_eq!(gather_compact(&dense, 1, &vec![7, 0, 0]), vec![41, 10, 10]);
    assert_eq!(gather_compact(&dense, 2, &vec![]), Vec::<u32>::new());
    assert_eq!(gather_compact(&dense, 0, &vec![5, 9]), Vec::<u32>::new());
    assert_eq!(gather_compact(&dense, 4, &vec![1, 0]), vec![30, 31, 40, 41, 10, 11, 20, 21]);
}

#[test]
fn splat_parameters_must_agree_on_the_number_of_splats() {
    let good = SplatParams {
        means: vec![0; 6],
        log_scales: vec![0; 6],
        quats: vec![0; 8],
        colors: vec![0; 6],
        raw_opacity: vec![0; 2],
    };
    assert!(good.check_dims());
    let empty = SplatParams { means: vec![], log_scales: vec![], quats: vec![], colors: vec![], raw_opacity: vec![] };
    assert!(empty.check_dims());
    let short_quats = SplatParams { quats: vec![0; 6], ..clone_of(&good) };
    assert!(!short_quats.check_dims());
    let long_means = SplatParams { means: vec![0; 7], ..clone_of(&good) };
    assert!(!long_means.check_dims());
    let no_opacity = SplatParams { raw_opacity: vec![], ..clone_of(&good) };
    assert!(!no_opacity.check_dims());
    let short_colors = SplatParams { colors: vec![0; 5], ..clone_of(&good) };
    assert!(!short_colors.check_dims());
    let short_scales = SplatParams { log_scales: vec![0; 3], ..clone_of(&good) };
    assert!(!short_scales.check_dims());
}

fn clone_of(p: &SplatParams) -> SplatParams {
    SplatParams {
        means: p.means.clone(),
        log_scales: p.log_scales.clone(),
        quats: p.quats.clone(),
        colors: p.colors.clone(),
        raw_opacity: p.raw_opacity.clone(),
    }
}

#[test]
fn image_has_a_word_for_each_channel_or_each_pixel() {
    let size = ImageSize { width: 3, height: 2 };
    assert!(check_image(&vec![0; 24], size, false));
    assert!(check_image(&vec![0; 6], size, true));
    assert!(!check_image(&vec![0; 6], size, false));
    assert!(!check_image(&vec![0; 24], size, true));
    assert!(!check_image(&vec![0; 23], size, false));
    assert!(check_image(&vec![], ImageSize { width: 0, height: 9 }, false));
}

struct Flat;

impl Backend for Flat {
    type Camera = ();

    fn render_gaussians(
        _cam: &(),
        img_size: ImageSize,
        splats: &SplatParams,
        background: [u32; 3],
        render_u32_buffer: bool,
    ) -> (Vec<u32>, RenderAux) {
        let grid = TileGrid::for_image(img_size).unwrap();
        let nothing = TileRect { min_x: 0, min_y: 0, max_x: 0, max_y: 0 };
        let projected = vec![ProjectedSplat { visible: false, rect: nothing, depth: 0 }; splats.raw_opacity.len()];
        let binning = bin_splats(&projected, &grid).unwrap();
        let pixels = (img_size.width * img_size.height) as usize;
        let aux = RenderAux::assemble(binning, &grid, img_size, vec![], vec![], vec![], vec![], vec![NO_CONTRIBUTOR; pixels])
            .unwrap();
        let mut image = Vec::new();
        for _ in 0..pixels {
            if render_u32_buffer {
                let channel = |w: u32| (f32::from_bits(w) * 255.0).round() as u8;
                image.push(pack_rgba8(channel(background[0]), channel(background[1]), channel(background[2]), 255));
            } else {
                image.extend_from_slice(&[background[0], background[1], background[2], 1.0f32.to_bits()]);
            }
        }
        (image, aux)
    }
}

impl AutodiffBackend for Flat {}

fn render_through<B: AutodiffBackend>(cam: &B::Camera, size: ImageSize, packed: bool) -> (Vec<u32>, RenderAux) {
    let splats = SplatParams {
        means: vec![0; 9],
        log_scales: vec![0; 9],
        quats: vec![0; 12],
        colors: vec![0; 9],
        raw_opacity: vec![0; 3],
    };
    assert!(splats.check_dims());
    B::render_gaussians(cam, size, &splats, [1.0f32.to_bits(), 0.5f32.to_bits(), 0.0f32.to_bits()], packed)
}

#[test]
fn a_backend_renders_through_the_trait() {
    let size = ImageSize { width: 5, height: 3 };
    let (image, aux) = render_through::<Flat>(&(), size, false);
    assert!(check_image(&image, size, false));
    assert_eq!(aux.num_visible, 0);
    assert_eq!(aux.num_intersects, 0);
    assert_eq!(aux.final_index, vec![NO_CONTRIBUTOR; 15]);
    assert_eq!(f32::from_bits(image[4 * 7 + 1]), 0.5);
    let (packed, _) = render_through::<Flat>(&(), size, true);
    assert!(check_image(&packed, size, true));
    assert_eq!(packed[14], 0xff00_80ff);
}
