use nebula_tools::bytes::{push_i16, push_u16, push_u32, push_u64, read_i16, read_u16, read_u32, read_u64};
use nebula_tools::chunk::{compress_chunk, decode_frame, encode_nbl_file, frame_chunk};
use nebula_tools::container::{build_nbl_file, parse_container};
use nebula_tools::frame::{decode_chunk, encode_i_frame, encode_p_frame, FrameData, IFrame, NblError, PFrame};
use nebula_tools::header::{
    check_magic, push_header, push_textures, read_header, read_textures, texture_block_len,
    NblHeader, TextureEntry, HEADER_LEN,
};

fn header() -> NblHeader {
    NblHeader {
        version: 1,
        target_fps: 30,
        total_frames: 7,
        texture_count: 0,
        attributes: 3,
        bbox_min: [0xBF80_0000, 0, 0x4000_0000],
        bbox_max: [0x3F80_0000, 0x4040_0000, 0x4080_0000],
    }
}

fn two_particles() -> IFrame {
    IFrame {
        xs: vec![0x3F80_0000, 0x4000_0000],
        ys: vec![1, 2],
        zs: vec![3, 4],
        r: vec![255, 10],
        g: vec![0, 20],
        b: vec![128, 30],
        a: vec![255, 40],
        sizes: vec![100, 200],
        tex_ids: vec![0, 1],
        seq_indices: vec![2, 3],
        ids: vec![7, -4],
    }
}

fn same_i(a: &IFrame, b: &IFrame) -> bool {
    a.xs == b.xs
        && a.ys == b.ys
        && a.zs == b.zs
        && a.r == b.r
        && a.g == b.g
        && a.b == b.b
        && a.a == b.a
        && a.sizes == b.sizes
        && a.tex_ids == b.tex_ids
        && a.seq_indices == b.seq_indices
        && a.ids == b.ids
}

#[test]
fn little_endian_integers_round_trip() {
    let mut buf = Vec::new();
    push_u16(&mut buf, 0x1234);
    push_u32(&mut buf, 0xA1B2_C3D4);
    push_u64(&mut buf, 0x0102_0304_0506_0708);
    push_i16(&mut buf, -2);
    assert_eq!(buf[0..2], [0x34, 0x12]);
    assert_eq!(buf[2..6], [0xD4, 0xC3, 0xB2, 0xA1]);
    assert_eq!(buf[6..14], [8, 7, 6, 5, 4, 3, 2, 1]);
    assert_eq!(buf[14..16], [0xFE, 0xFF]);
    assert_eq!(read_u16(&buf, 0), 0x1234);
    assert_eq!(read_u32(&buf, 2), 0xA1B2_C3D4);
    assert_eq!(read_u64(&buf, 6), 0x0102_0304_0506_0708);
    assert_eq!(read_i16(&buf, 14), -2);
}

#[test]
fn header_is_48_bytes_and_round_trips() {
    let h = header();
    let mut buf = Vec::new();
    push_header(&mut buf, &h);
    assert_eq!(buf.len(), HEADER_LEN);
    assert_eq!(&buf[0..8], b"NEBULAFX");
    assert_eq!(buf[8..10], [1, 0]);
    assert_eq!(buf[10..12], [30, 0]);
    assert_eq!(buf[12..16], [7, 0, 0, 0]);
    assert_eq!(buf[44..48], [0, 0, 0, 0]);
    assert!(check_magic(&buf));
    let back = read_header(&buf);
    assert_eq!(back.version, 1);
    assert_eq!(back.target_fps, 30);
    assert_eq!(back.total_frames, 7);
    assert_eq!(back.attributes, 3);
    assert_eq!(back.bbox_min, h.bbox_min);
    assert_eq!(back.bbox_max, h.bbox_max);
}

#[test]
fn texture_block_layout_and_round_trip() {
    let ts = vec![
        TextureEntry { path: "ab".to_string(), rows: 2, cols: 3 },
        TextureEntry { path: "tex/星.png".to_string(), rows: 1, cols: 8 },
    ];
    let mut buf = Vec::new();
    push_textures(&mut buf, &ts);
    assert_eq!(buf[0..6], [2, 0, b'a', b'b', 2, 3]);
    assert_eq!(buf.len(), texture_block_len(&ts));
    let (back, end) = read_textures(&buf, 0, 2).unwrap();
    assert_eq!(end, buf.len());
    assert_eq!(back.len(), 2);
    assert_eq!(back[1].path, "tex/星.png");
    assert_eq!(back[1].rows, 1);
    assert_eq!(back[1].cols, 8);
    assert!(read_textures(&buf, 0, 3).is_none());
}

#[test]
fn texture_with_invalid_utf8_reads_as_placeholder() {
    let buf = vec![2u8, 0, 0xFF, 0xFE, 1, 1];
    let (back, end) = read_textures(&buf, 0, 1).unwrap();
    assert_eq!(end, 6);
    assert_eq!(back[0].path, "Invalid UTF8");
}

#[test]
fn i_frame_layout_and_round_trip() {
    let f = two_particles();
    let bytes = encode_i_frame(&f);
    assert_eq!(bytes.len(), 5 + 24 * 2);
    assert_eq!(bytes[0], 0);
    assert_eq!(bytes[1..5], [2, 0, 0, 0]);
    assert_eq!(bytes[5..9], [0, 0, 0x80, 0x3F]);
    match decode_chunk(&bytes).unwrap() {
        FrameData::I(back) => assert!(same_i(&f, &back)),
        FrameData::P(_) => panic!("an I-frame decoded as a P-frame"),
    }
}

#[test]
fn p_frame_layout_and_round_trip() {
    let f = PFrame {
        dx: vec![-1000],
        dy: vec![5],
        dz: vec![32767],
        dr: vec![-128],
        dg: vec![1],
        db: vec![0],
        da: vec![127],
        d_sizes: vec![-3],
        d_tex: vec![1],
        d_seq: vec![-1],
        ids: vec![42],
    };
    let bytes = encode_p_frame(&f);
    assert_eq!(bytes.len(), 5 + 18);
    assert_eq!(bytes[0], 1);
    assert_eq!(bytes[1..5], [1, 0, 0, 0]);
    match decode_chunk(&bytes).unwrap() {
        FrameData::P(back) => {
            assert_eq!(back.dx, vec![-1000]);
            assert_eq!(back.dz, vec![32767]);
            assert_eq!(back.dr, vec![-128]);
            assert_eq!(back.da, vec![127]);
            assert_eq!(back.d_sizes, vec![-3]);
            assert_eq!(back.d_seq, vec![-1]);
            assert_eq!(back.ids, vec![42]);
        }
        FrameData::I(_) => panic!("a P-frame decoded as an I-frame"),
    }
}

#[test]
fn decode_chunk_errors() {
    assert_eq!(decode_chunk(&[0, 1, 0]).err(), Some(NblError::Truncated));
    assert_eq!(decode_chunk(&[7, 0, 0, 0, 0]).err(), Some(NblError::UnknownFrameType(7)));
    assert_eq!(decode_chunk(&[0, 1, 0, 0, 0, 9, 9]).err(), Some(NblError::Truncated));
    assert_eq!(decode_chunk(&[1, 1, 0, 0, 0]).err(), Some(NblError::Truncated));
    match decode_chunk(&[0, 0, 0, 0, 0]).unwrap() {
        FrameData::I(f) => assert!(f.ids.is_empty()),
        FrameData::P(_) => panic!("wrong frame type"),
    }
}

#[test]
fn container_errors() {
    assert_eq!(parse_container(b"NEB").err(), Some(NblError::Truncated));
    assert_eq!(parse_container(b"NOTNEBULA_FILE").err(), Some(NblError::BadMagic));
    assert_eq!(parse_container(b"NEBULAFX0123456789").err(), Some(NblError::Truncated));
    let mut buf = Vec::new();
    let mut h = header();
    h.total_frames = 1;
    push_header(&mut buf, &h);
    push_u64(&mut buf, 100);
    assert_eq!(parse_container(&buf).err(), Some(NblError::Truncated));
}

#[test]
fn raw_file_layout_from_chunks() {
    let ts = vec![TextureEntry { path: "a".to_string(), rows: 1, cols: 1 }];
    let chunks = vec![vec![1u8, 2, 3], vec![4u8, 5]];
    let file = build_nbl_file(&header(), &ts, &chunks);
    let start = 48 + 5 + 12 * 2 + 4 + 4 * 2;
    assert_eq!(file.len(), start + 5);
    assert_eq!(file[start..], [1, 2, 3, 4, 5]);
    let ix = parse_container(&file).unwrap();
    assert_eq!(ix.header.total_frames, 2);
    assert_eq!(ix.header.texture_count, 1);
    assert_eq!(ix.header.target_fps, 30);
    assert_eq!(ix.frame_indices, vec![(start as u64, 3), (start as u64 + 3, 2)]);
    assert_eq!(ix.keyframe_indices, vec![0, 1]);
    assert_eq!(frame_chunk(&file, start as u64 + 3, 2).unwrap(), vec![4, 5]);
}

#[test]
fn frame_chunk_out_of_range() {
    let data = vec![0u8; 10];
    assert_eq!(frame_chunk(&data, 8, 3).err(), Some(NblError::Truncated));
    assert_eq!(frame_chunk(&data, 11, 0).err(), Some(NblError::Truncated));
    assert_eq!(frame_chunk(&data, 8, 2).unwrap(), vec![0, 0]);
}

#[test]
fn saved_file_reads_back_through_zstd() {
    let mut second = two_particles();
    second.ids = vec![1, 2];
    second.r = vec![1, 1];
    let frames = vec![two_particles(), second];
    let ts = vec![TextureEntry { path: "spark.png".to_string(), rows: 4, cols: 4 }];
    let file = encode_nbl_file(&header(), &ts, &frames, 3).unwrap();
    let ix = parse_container(&file).unwrap();
    assert_eq!(ix.header.total_frames, 2);
    assert_eq!(ix.header.texture_count, 1);
    assert_eq!(ix.textures[0].path, "spark.png");
    assert_eq!(ix.keyframe_indices, vec![0, 1]);
    for (i, (off, size)) in ix.frame_indices.iter().enumerate() {
        let chunk = frame_chunk(&file, *off, *size).unwrap();
        assert_ne!(chunk, encode_i_frame(&frames[i]));
        match decode_frame(&chunk).unwrap() {
            FrameData::I(back) => assert!(same_i(&frames[i], &back)),
            FrameData::P(_) => panic!("keyframe decoded as a P-frame"),
        }
    }
}

#[test]
fn garbage_chunk_fails_to_decompress() {
    assert_eq!(decode_frame(&[1, 2, 3, 4, 5, 6]).err(), Some(NblError::Decompress));
    let raw = encode_i_frame(&two_particles());
    assert_eq!(decode_frame(&raw).err(), Some(NblError::Decompress));
}

#[test]
fn compressed_chunk_decodes_as_the_raw_one() {
    let raw = encode_i_frame(&two_particles());
    let c = compress_chunk(&raw, 3).unwrap();
    assert_ne!(c, raw);
    match decode_frame(&c).unwrap() {
        FrameData::I(back) => assert!(same_i(&two_particles(), &back)),
        FrameData::P(_) => panic!("keyframe decoded as a P-frame"),
    }
}
