use std::io::Read;

use flate2::read::GzDecoder;
use robosim::map_feed::{map_update_from_file, map_update_message, MapFileError, MAP_SIDE};
use robosim::server::{encode_map_update, map_update_frame, outgoing_frame, ServerMessage, WsFrame};

fn gunzip(z: &[u8]) -> Vec<u8> {
    let mut out = Vec::new();
    GzDecoder::new(z).read_to_end(&mut out).unwrap();
    out
}

#[test]
fn map_update_payload_layout() {
    let b = encode_map_update(1, -2, &[9, 8]);
    assert_eq!(
        b,
        vec![b'M', b'U', 0, 0, 0, 0, 0, 0, 0, 1, 0xff, 0xff, 0xff, 0xff, 0xff, 0xff, 0xff, 0xfe, 9, 8]
    );
}

#[test]
fn map_update_payload_fields_read_back() {
    let (x, y) = (i64::MIN + 7, 0x0123_4567_89ab_cdef);
    let b = encode_map_update(x, y, b"img");
    assert_eq!(&b[..2], b"MU");
    assert_eq!(i64::from_be_bytes(b[2..10].try_into().unwrap()), x);
    assert_eq!(i64::from_be_bytes(b[10..18].try_into().unwrap()), y);
    assert_eq!(&b[18..], b"img");
}

#[test]
fn map_update_frame_is_gzip_of_payload() {
    let img: Vec<u8> = (0..300u32).map(|i| (i % 7) as u8).collect();
    let z = map_update_frame(5, 6, &img).unwrap();
    assert_eq!(&z[..10], &[0x1f, 0x8b, 8, 0, 0, 0, 0, 0, 0, 0xff]);
    let payload = encode_map_update(5, 6, &img);
    let n = payload.len() as u32;
    assert_eq!(&z[z.len() - 4..], &n.to_le_bytes());
    assert_eq!(gunzip(&z), payload);
}

#[test]
fn ping_is_answered_with_text() {
    match outgoing_frame(&ServerMessage::Ping) {
        Ok(Some(WsFrame::Text(s))) => assert_eq!(s, "Ping"),
        other => panic!("unexpected {:?}", other),
    }
}

#[test]
fn points_and_poses_are_not_sent() {
    assert!(matches!(outgoing_frame(&ServerMessage::Point), Ok(None)));
    assert!(matches!(outgoing_frame(&ServerMessage::PoseUpdate), Ok(None)));
}

#[test]
fn map_update_is_sent_compressed() {
    let msg = ServerMessage::MapUpdate { x: -3, y: 4, img: Box::new(vec![1, 2, 3]) };
    match outgoing_frame(&msg) {
        Ok(Some(WsFrame::Binary(z))) => assert_eq!(gunzip(&z), encode_map_update(-3, 4, &[1, 2, 3])),
        other => panic!("unexpected {:?}", other),
    }
}

#[test]
fn map_snapshot_is_a_png_of_the_map() {
    let side = MAP_SIDE as usize;
    let pixels: Vec<u8> = (0..side * side).map(|i| (i % 251) as u8).collect();
    match map_update_message(&pixels) {
        ServerMessage::MapUpdate { x, y, img } => {
            assert_eq!((x, y), (0, 0));
            assert_eq!(&img[..8], &[137, 80, 78, 71, 13, 10, 26, 10]);
            let decoded = image::load_from_memory(&img).unwrap().into_luma8();
            assert_eq!(decoded.dimensions(), (MAP_SIDE, MAP_SIDE));
            assert_eq!(decoded.into_raw(), pixels);
        }
        other => panic!("unexpected {:?}", other),
    }
}

fn png_of(width: u32, height: u32, pixels: &[u8]) -> Vec<u8> {
    let img = image::GrayImage::from_raw(width, height, pixels.to_vec()).unwrap();
    let mut out = std::io::Cursor::new(Vec::new());
    img.write_to(&mut out, image::ImageFormat::Png).unwrap();
    out.into_inner()
}

#[test]
fn map_file_is_decoded_and_broadcast() {
    let side = MAP_SIDE as usize;
    let pixels: Vec<u8> = (0..side * side).map(|i| (i % 13 * 19) as u8).collect();
    let file = png_of(MAP_SIDE, MAP_SIDE, &pixels);
    match map_update_from_file(&file) {
        Ok(ServerMessage::MapUpdate { x, y, img }) => {
            assert_eq!((x, y), (0, 0));
            let decoded = image::load_from_memory(&img).unwrap().into_luma8();
            assert_eq!(decoded.dimensions(), (MAP_SIDE, MAP_SIDE));
            assert_eq!(decoded.into_raw(), pixels);
        }
        other => panic!("unexpected {:?}", other),
    }
}

#[test]
fn map_file_that_is_not_png_is_refused() {
    assert!(matches!(map_update_from_file(b"not a png file"), Err(MapFileError::Decode)));
}

#[test]
fn map_file_of_wrong_size_is_refused() {
    let file = png_of(10, 10, &[7u8; 100]);
    assert!(matches!(map_update_from_file(&file), Err(MapFileError::Size)));
}

#[test]
fn map_file_with_right_pixel_count_in_another_shape_is_sent() {
    let n = MAP_SIDE * MAP_SIDE;
    let pixels = vec![42u8; n as usize];
    let file = png_of(n, 1, &pixels);
    assert!(matches!(map_update_from_file(&file), Ok(ServerMessage::MapUpdate { .. })));
}
