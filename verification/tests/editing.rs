use nebula_tools::container::parse_container;
use nebula_tools::chunk::decode_frame;
use nebula_tools::edit::{index_tables, keyframe_due, stream_front, trim_window, DEFAULT_KEYFRAME_INTERVAL};
use nebula_tools::frame::{encode_i_frame, encode_p_frame, FrameData, IFrame, NblError, PFrame};
use nebula_tools::stream::StreamIndex;
use nebula_tools::editor::{config_bracket, interpolate_keyframes, ConfigBracket, EmitterShape, KeySegment, SimpleRng};
use nebula_tools::header::{NblHeader, TextureEntry};
use nebula_tools::state::Particle;
use nebula_tools::timeline::{merge_frames, split_frame_ranges, tracks_to_frames, Keyframe, Track};

#[test]
fn keyframes_fall_on_the_interval() {
    assert!(keyframe_due(0, 60));
    assert!(!keyframe_due(59, 60));
    assert!(keyframe_due(120, 60));
    assert!(keyframe_due(0, 7));
    assert!(keyframe_due(14, 7));
    assert!(!keyframe_due(30, 0));
    assert!(keyframe_due(DEFAULT_KEYFRAME_INTERVAL, 0));
}

#[test]
fn trim_window_clamps() {
    assert_eq!(trim_window(10, 20, 100), (10, 11));
    assert_eq!(trim_window(10, 5, 100), (10, 1));
    assert_eq!(trim_window(0, 200, 100), (0, 100));
    assert_eq!(trim_window(150, 300, 100), (99, 1));
    assert_eq!(trim_window(5, 20, 0), (0, 1));
}

fn one_particle_i_frame() -> IFrame {
    IFrame {
        xs: vec![1],
        ys: vec![2],
        zs: vec![3],
        r: vec![4],
        g: vec![5],
        b: vec![6],
        a: vec![7],
        sizes: vec![8],
        tex_ids: vec![0],
        seq_indices: vec![0],
        ids: vec![11],
    }
}

fn one_particle_p_frame() -> PFrame {
    PFrame {
        dx: vec![1],
        dy: vec![0],
        dz: vec![0],
        dr: vec![0],
        dg: vec![0],
        db: vec![0],
        da: vec![0],
        d_sizes: vec![0],
        d_tex: vec![0],
        d_seq: vec![0],
        ids: vec![11],
    }
}

#[test]
fn streamed_file_reads_back() {
    let h = NblHeader {
        version: 1,
        target_fps: 24,
        total_frames: 99,
        texture_count: 9,
        attributes: 0,
        bbox_min: [0; 3],
        bbox_max: [0; 3],
    };
    let ts = vec![TextureEntry { path: "p.png".to_string(), rows: 1, cols: 2 }];
    let front = stream_front(&h, &ts, 3);
    let table_at = 48 + 2 + 5 + 2;
    assert_eq!(front.len(), table_at + 12 * 3 + 4 + 4 * 3);
    let start = front.len() as u64;
    let mut si = StreamIndex::new(start);
    let mut file = front.clone();
    let c0 = si.add_chunk(&encode_i_frame(&one_particle_i_frame()), 3).unwrap();
    file.extend_from_slice(&c0);
    let c1 = si.add_chunk(&encode_p_frame(&one_particle_p_frame()), 3).unwrap();
    file.extend_from_slice(&c1);
    let c2 = si.add_chunk(&encode_i_frame(&one_particle_i_frame()), 3).unwrap();
    file.extend_from_slice(&c2);
    let (l0, l1, l2) = (c0.len() as u64, c1.len() as u64, c2.len() as u64);
    assert_eq!(si.next_offset, start + l0 + l1 + l2);
    assert_eq!(si.keyframes, vec![0, 2]);
    let tables = index_tables(&si.entries, &si.keyframes);
    assert_eq!(tables.len(), 12 * 3 + 4 + 4 * 2);
    file[table_at..table_at + tables.len()].copy_from_slice(&tables);
    let ix = parse_container(&file).unwrap();
    assert_eq!(ix.header.total_frames, 3);
    assert_eq!(ix.header.texture_count, 1);
    assert_eq!(ix.header.target_fps, 24);
    assert_eq!(
        ix.frame_indices,
        vec![(start, l0 as u32), (start + l0, l1 as u32), (start + l0 + l1, l2 as u32)]
    );
    assert_eq!(ix.keyframe_indices, vec![0, 2]);
    let (off, size) = ix.frame_indices[1];
    match decode_frame(&file[off as usize..(off + size as u64) as usize]).unwrap() {
        FrameData::P(p) => assert_eq!(p.dx, vec![1]),
        FrameData::I(_) => panic!("a P-frame came back as a keyframe"),
    }
}

#[test]
fn truncated_raw_chunk_is_no_keyframe() {
    let mut si = StreamIndex::new(0);
    let mut raw = encode_i_frame(&one_particle_i_frame());
    raw.truncate(10);
    let c = si.add_chunk(&raw, 1).unwrap();
    assert!(si.keyframes.is_empty());
    assert_eq!(decode_frame(&c).err(), Some(NblError::Truncated));
    assert_eq!(si.entries, vec![(0, c.len() as u32)]);
}

#[test]
fn shapes_and_their_keys() {
    assert_eq!(EmitterShape::Torus.i18n_key(), "shape_torus");
    assert_eq!(EmitterShape::Point.i18n_key(), "shape_point");
    let all = EmitterShape::all();
    assert_eq!(all[0], EmitterShape::Point);
    assert_eq!(all[6], EmitterShape::Torus);
    assert_eq!(all[4].i18n_key(), "shape_cylinder");
}

#[test]
fn xorshift_sequence() {
    let mut rng = SimpleRng::new(0);
    assert_eq!(rng.state, 1);
    assert_eq!(rng.next_u32(), 270369);
    assert_eq!(rng.state, 270369);
    let mut other = SimpleRng::new(270369);
    let mut again = SimpleRng::new(1);
    again.next_u32();
    assert_eq!(other.next_u32(), again.next_u32());
    let mut r = SimpleRng::new(12345);
    for _ in 0..1000 {
        assert_ne!(r.next_u32(), 0);
    }
}

#[test]
fn configuration_keyframe_choice() {
    let kfs = vec![10, 20, 30];
    assert_eq!(config_bracket(5, &kfs), ConfigBracket { prev: None, prev_frame: 0, next: Some(0) });
    assert_eq!(config_bracket(20, &kfs), ConfigBracket { prev: Some(1), prev_frame: 20, next: Some(2) });
    assert_eq!(config_bracket(35, &kfs), ConfigBracket { prev: Some(2), prev_frame: 30, next: None });
    assert_eq!(config_bracket(7, &vec![]), ConfigBracket { prev: None, prev_frame: 0, next: None });
    assert_eq!(config_bracket(25, &vec![10, 40, 20]), ConfigBracket { prev: Some(0), prev_frame: 10, next: Some(1) });
}

#[test]
fn animation_keyframe_choice() {
    let keys = vec![0, 10, 30];
    assert_eq!(interpolate_keyframes(5, &vec![]), KeySegment::Unanimated);
    assert_eq!(interpolate_keyframes(0, &keys), KeySegment::At(0));
    assert_eq!(interpolate_keyframes(40, &keys), KeySegment::At(30));
    assert_eq!(interpolate_keyframes(10, &keys), KeySegment::Between(10, 30));
    assert_eq!(interpolate_keyframes(9, &keys), KeySegment::Between(0, 10));
    assert_eq!(interpolate_keyframes(3, &vec![5]), KeySegment::At(5));
}

#[test]
fn frame_ranges_partition_the_frames() {
    assert_eq!(split_frame_ranges(10, 3), vec![(0, 4), (4, 7), (7, 10)]);
    assert_eq!(split_frame_ranges(2, 5), vec![(0, 1), (1, 2)]);
    assert_eq!(split_frame_ranges(9, 3), vec![(0, 3), (3, 6), (6, 9)]);
    assert!(split_frame_ranges(0, 4).is_empty());
    assert!(split_frame_ranges(4, 0).is_empty());
    let r = split_frame_ranges(1000, 7);
    assert_eq!(r.len(), 7);
    assert_eq!(r[0].0, 0);
    assert_eq!(r[6].1, 1000);
    for w in r.windows(2) {
        assert_eq!(w[0].1, w[1].0);
    }
    for (s, e) in &r {
        assert!(e - s == 142 || e - s == 143);
    }
}

fn p(id: i32) -> Particle {
    Particle { id, pos: [0; 3], color: [0; 4], size: 0, tex_id: 0, seq_index: 0 }
}

fn ids(frames: &[Vec<Particle>]) -> Vec<Vec<i32>> {
    frames.iter().map(|f| f.iter().map(|q| q.id).collect()).collect()
}

#[test]
fn merged_frames_append_the_second() {
    let a = vec![vec![p(1)], vec![p(2), p(3)]];
    let b = vec![vec![p(4)], vec![], vec![p(5)]];
    let m = merge_frames(a, b);
    assert_eq!(ids(&m), vec![vec![1, 4], vec![2, 3], vec![5]]);
    let m2 = merge_frames(vec![vec![p(1)], vec![p(2)]], vec![]);
    assert_eq!(ids(&m2), vec![vec![1], vec![2]]);
}

fn kf(tick: u32, x: u32) -> Keyframe {
    Keyframe { tick, pos: [x, 0, 0], color: [1, 2, 3, 4], size: 9 }
}

#[test]
fn tracks_become_frames() {
    let tracks = vec![
        Track { id: 1, keyframes: vec![kf(0, 10), kf(2, 12)] },
        Track { id: 2, keyframes: vec![kf(1, 20), kf(2, 21), kf(2, 22)] },
        Track { id: 3, keyframes: vec![] },
    ];
    let frames = tracks_to_frames(&tracks);
    assert_eq!(frames.len(), 3);
    assert_eq!(ids(&frames), vec![vec![1], vec![2], vec![1, 2, 2]]);
    assert_eq!(frames[2][0].pos[0], 12);
    assert_eq!(frames[2][2].pos[0], 22);
    assert_eq!(frames[1][0].color, [1, 2, 3, 4]);
    assert_eq!(frames[1][0].tex_id, 0);
    assert!(tracks_to_frames(&vec![]).is_empty());
    let late = vec![Track { id: 4, keyframes: vec![kf(5, 0), kf(1, 1)] }, Track { id: 5, keyframes: vec![kf(9, 2), kf(3, 3)] }];
    let f = tracks_to_frames(&late);
    assert_eq!(f.len(), 4);
    assert_eq!(ids(&f), vec![vec![], vec![4], vec![], vec![5]]);
}

fn sp(id: i32, x: u32) -> Particle {
    Particle { id, pos: [x, 0, 0], color: [9, 9, 9, 9], size: 100, tex_id: 0, seq_index: 0 }
}

#[test]
fn frames_become_keyframes_on_the_interval_or_on_overflow() {
    let mut si = StreamIndex::new(0);
    let q = |s: u32| s as u16;
    let d = |_p: Option<Particle>, _c: Particle| [0i16; 4];
    let f0 = vec![sp(1, 0)];
    let c0 = si.add_frame(&vec![], &f0, 3, false, &q, &d, 1).unwrap();
    let c1 = si.add_frame(&f0, &f0, 3, false, &q, &d, 1).unwrap();
    let c2 = si.add_frame(&f0, &f0, 3, true, &q, &d, 1).unwrap();
    let c3 = si.add_frame(&f0, &f0, 3, false, &q, &d, 1).unwrap();
    assert_eq!(si.keyframes, vec![0, 2, 3]);
    assert!(matches!(decode_frame(&c0).unwrap(), FrameData::I(_)));
    assert!(matches!(decode_frame(&c1).unwrap(), FrameData::P(_)));
    assert!(matches!(decode_frame(&c2).unwrap(), FrameData::I(_)));
    assert!(matches!(decode_frame(&c3).unwrap(), FrameData::I(_)));
    assert_eq!(si.entries.len(), 4);
}
