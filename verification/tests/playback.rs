use nebula_tools::chunk::{encode_nbl_file, frame_chunk};
use nebula_tools::encode::{channel_delta, i_frame_from_particles, p_frame_from_particles};
use nebula_tools::frame::{IFrame, NblError, PFrame};
use nebula_tools::header::NblHeader;
use nebula_tools::player::{interpolate_by_id, PlayerState, SeekAction};
use nebula_tools::state::{saturating_add_signed, wrapping_add_signed, Particle, ParticleSet};

fn header() -> NblHeader {
    NblHeader {
        version: 1,
        target_fps: 60,
        total_frames: 0,
        texture_count: 0,
        attributes: 0,
        bbox_min: [0; 3],
        bbox_max: [0; 3],
    }
}

fn frame(ids: Vec<i32>, reds: Vec<u8>) -> IFrame {
    let n = ids.len();
    IFrame {
        xs: vec![0x3F80_0000; n],
        ys: vec![0; n],
        zs: vec![0; n],
        r: reds,
        g: vec![0; n],
        b: vec![0; n],
        a: vec![255; n],
        sizes: vec![10; n],
        tex_ids: vec![1; n],
        seq_indices: vec![0; n],
        ids,
    }
}

fn particle(id: i32, red: u8, size: u32) -> Particle {
    Particle { id, pos: [1, 2, 3], color: [red, 0, 0, 255], size, tex_id: 0, seq_index: 0 }
}

fn keep_position(prior: Option<Particle>, _d: [i16; 4]) -> ([u32; 3], u32) {
    match prior {
        Some(p) => (p.pos, p.size),
        None => ([0; 3], 0),
    }
}

#[test]
fn colour_channels_clamp_and_indices_wrap() {
    assert_eq!(saturating_add_signed(250, 10), 255);
    assert_eq!(saturating_add_signed(3, -10), 0);
    assert_eq!(saturating_add_signed(100, -1), 99);
    assert_eq!(wrapping_add_signed(0, -1), 255);
    assert_eq!(wrapping_add_signed(255, 1), 0);
    assert_eq!(wrapping_add_signed(7, 3), 10);
    assert_eq!(channel_delta(200, 10), 127);
    assert_eq!(channel_delta(10, 200), -128);
    assert_eq!(channel_delta(5, 3), 2);
}

#[test]
fn i_frame_replaces_every_particle() {
    let mut set = ParticleSet::new();
    set.apply_i_frame(&frame(vec![1, 2], vec![10, 20]), &|s: u16| s as u32 * 2);
    assert_eq!(set.len(), 2);
    set.apply_i_frame(&frame(vec![3, 3], vec![30, 40]), &|s: u16| s as u32);
    assert_eq!(set.len(), 1);
    assert!(set.get(1).is_none());
    let p = set.get(3).unwrap();
    assert_eq!(p.color, [40, 0, 0, 255]);
    assert_eq!(p.size, 10);
    assert_eq!(p.pos, [0x3F80_0000, 0, 0]);
}

#[test]
fn p_frame_updates_spawns_and_despawns() {
    let mut set = ParticleSet::new();
    set.apply_i_frame(&frame(vec![1, 2], vec![10, 250]), &|s: u16| s as u32);
    let f = PFrame {
        dx: vec![5, 9],
        dy: vec![0, 0],
        dz: vec![0, 0],
        dr: vec![10, 5],
        dg: vec![0, -1],
        db: vec![0, 0],
        da: vec![0, 0],
        d_sizes: vec![0, 0],
        d_tex: vec![-1, -1],
        d_seq: vec![0, 0],
        ids: vec![2, 3],
    };
    set.apply_p_frame(&f, &|prior: Option<Particle>, d: [i16; 4]| -> ([u32; 3], u32) {
        let base = match prior {
            Some(p) => p.pos[0],
            None => 0,
        };
        ([base + d[0] as u32, 0, 0], 4)
    });
    assert_eq!(set.len(), 2);
    assert!(set.get(1).is_none());
    let updated = set.get(2).unwrap();
    assert_eq!(updated.color, [255, 0, 0, 255]);
    assert_eq!(updated.tex_id, 0);
    assert_eq!(updated.pos[0], 0x3F80_0000 + 5);
    assert_eq!(updated.size, 4);
    let spawned = set.get(3).unwrap();
    assert_eq!(spawned.color, [5, 0, 0, 0]);
    assert_eq!(spawned.tex_id, 255);
    assert_eq!(spawned.pos, [9, 0, 0]);
}

#[test]
fn retain_keeps_listed_ids() {
    let mut set = ParticleSet::new();
    set.apply_i_frame(&frame(vec![1, 2, 3], vec![1, 2, 3]), &|s: u16| s as u32);
    set.retain_ids(&vec![3, 1, 9]);
    assert_eq!(set.len(), 2);
    assert!(set.get(2).is_none());
    assert_eq!(set.get(3).unwrap().color[0], 3);
}

#[test]
fn keyframe_encoding_restores_particles() {
    let ps = vec![particle(5, 7, 30), particle(-2, 9, 120)];
    let f = i_frame_from_particles(&ps, &|s: u32| (s / 10) as u16);
    assert_eq!(f.sizes, vec![3, 12]);
    let mut set = ParticleSet::new();
    set.apply_i_frame(&f, &|s: u16| s as u32 * 10);
    for p in &ps {
        let q = set.get(p.id).unwrap();
        assert_eq!((q.pos, q.color, q.size, q.tex_id, q.seq_index), (p.pos, p.color, p.size, p.tex_id, p.seq_index));
    }
}

#[test]
fn delta_encoding_restores_particles() {
    let prev = vec![particle(1, 100, 8), particle(2, 50, 8)];
    let cur = vec![particle(1, 103, 8), Particle { id: 3, pos: [0; 3], color: [4, 0, 0, 2], size: 0, tex_id: 1, seq_index: 2 }];
    let f = p_frame_from_particles(&prev, &cur, &|_a: Option<Particle>, _b: Particle| [0i16; 4]);
    assert_eq!(f.ids, vec![1, 3]);
    assert_eq!(f.dr, vec![3, 4]);
    let mut set = ParticleSet::new();
    set.apply_i_frame(&i_frame_from_particles(&prev, &|s: u32| s as u16), &|s: u16| s as u32);
    set.apply_p_frame(&f, &keep_position);
    assert_eq!(set.len(), 2);
    assert!(set.get(2).is_none());
    for p in &cur {
        let q = set.get(p.id).unwrap();
        assert_eq!((q.pos, q.color, q.size, q.tex_id, q.seq_index), (p.pos, p.color, p.size, p.tex_id, p.seq_index));
    }
}

fn three_frame_file() -> Vec<u8> {
    let frames = vec![
        frame(vec![7, -4], vec![1, 2]),
        frame(vec![7], vec![3]),
        frame(vec![8, 9, 1], vec![4, 5, 6]),
    ];
    encode_nbl_file(&header(), &Vec::new(), &frames, 1).unwrap()
}

#[test]
fn seeking_decisions() {
    let mut pl = PlayerState::new();
    assert_eq!(pl.seek_action(0), SeekAction::Stay);
    let file = three_frame_file();
    pl.load_index(&file).unwrap();
    assert_eq!(pl.current_frame_idx, -1);
    assert_eq!(pl.keyframe_indices, vec![0, 1, 2]);
    assert_eq!(pl.seek_action(3), SeekAction::Stay);
    assert_eq!(pl.seek_action(0), SeekAction::Replay { start: 0 });
    assert_eq!(pl.seek_action(2), SeekAction::Replay { start: 2 });
    pl.keyframe_indices = vec![0];
    pl.current_frame_idx = 0;
    assert_eq!(pl.seek_action(1), SeekAction::Step);
    assert_eq!(pl.seek_action(2), SeekAction::Replay { start: 0 });
    pl.keyframe_indices = vec![0, 5, 1];
    pl.current_frame_idx = 1;
    assert_eq!(pl.seek_action(2), SeekAction::Step);
    pl.current_frame_idx = 2;
    assert_eq!(pl.seek_action(1), SeekAction::Replay { start: 0 });
}

#[test]
fn playing_a_chunk_and_snapshot_order() {
    let mut pl = PlayerState::new();
    let file = three_frame_file();
    pl.load_index(&file).unwrap();
    let (off, size) = pl.frame_location(2);
    assert_eq!((off, size), pl.frame_indices[2]);
    let chunk = frame_chunk(&file, off, size).unwrap();
    pl.apply_chunk(&chunk, &|s: u16| s as u32, &keep_position).unwrap();
    let ids: Vec<i32> = pl.snapshot().iter().map(|p| p.id).collect();
    assert_eq!(ids, vec![1, 8, 9]);
    assert_eq!(pl.snapshot()[0].color[0], 6);
    assert_eq!(pl.apply_chunk(&[0, 1, 2], &|s: u16| s as u32, &keep_position).err(), Some(NblError::Decompress));
    assert_eq!(pl.particles.len(), 3);
}

#[test]
fn failed_load_changes_nothing() {
    let mut pl = PlayerState::new();
    pl.load_index(&three_frame_file()).unwrap();
    pl.current_frame_idx = 1;
    assert_eq!(pl.load_index(b"NEBULAFX").err(), Some(NblError::Truncated));
    assert_eq!(pl.load_index(b"GARBAGE!!").err(), Some(NblError::BadMagic));
    assert_eq!(pl.current_frame_idx, 1);
    assert_eq!(pl.header.unwrap().total_frames, 3);
    assert_eq!(pl.frame_indices.len(), 3);
}

#[test]
fn replay_from_keyframe_matches_playing_through() {
    let file = three_frame_file();
    let mut through = PlayerState::new();
    through.load_index(&file).unwrap();
    for f in 0..3 {
        let (off, size) = through.frame_location(f);
        let chunk = frame_chunk(&file, off, size).unwrap();
        through.apply_chunk(&chunk, &|s: u16| s as u32, &keep_position).unwrap();
    }
    let mut replay = PlayerState::new();
    replay.load_index(&file).unwrap();
    let (off, size) = replay.frame_location(2);
    let chunk = frame_chunk(&file, off, size).unwrap();
    replay.apply_chunk(&chunk, &|s: u16| s as u32, &keep_position).unwrap();
    let a: Vec<(i32, [u8; 4])> = through.snapshot().iter().map(|p| (p.id, p.color)).collect();
    let b: Vec<(i32, [u8; 4])> = replay.snapshot().iter().map(|p| (p.id, p.color)).collect();
    assert_eq!(a, b);
}

fn step_float(prior: Option<Particle>, d: [i16; 4]) -> ([u32; 3], u32) {
    keep_position(prior, d)
}

#[test]
fn loading_shows_the_first_frame_and_seeking_plays_back() {
    let file = three_frame_file();
    let mut pl = PlayerState::new();
    pl.load(&file, &|s: u16| s as u32, &step_float).unwrap();
    assert_eq!(pl.current_frame_idx, 0);
    let ids: Vec<i32> = pl.snapshot().iter().map(|p| p.id).collect();
    assert_eq!(ids, vec![-4, 7]);
    pl.seek_to(&file, 2, &|s: u16| s as u32, &step_float).unwrap();
    assert_eq!(pl.current_frame_idx, 2);
    let snap: Vec<(i32, u8)> = pl.snapshot().iter().map(|p| (p.id, p.color[0])).collect();
    assert_eq!(snap, vec![(1, 6), (8, 4), (9, 5)]);
    pl.seek_to(&file, 1, &|s: u16| s as u32, &step_float).unwrap();
    let snap: Vec<(i32, u8)> = pl.snapshot().iter().map(|p| (p.id, p.color[0])).collect();
    assert_eq!(snap, vec![(7, 3)]);
    pl.seek_to(&file, 9, &|s: u16| s as u32, &step_float).unwrap();
    assert_eq!(pl.current_frame_idx, 1);
    let mut broken = file.clone();
    let (off, _) = pl.frame_indices[2];
    broken[off as usize] ^= 0xFF;
    assert_eq!(pl.seek_to(&broken, 2, &|s: u16| s as u32, &step_float).err(), Some(NblError::Decompress));
    assert_eq!(pl.current_frame_idx, 1);
}

#[test]
fn loading_an_empty_file_shows_nothing() {
    let file = encode_nbl_file(&header(), &Vec::new(), &Vec::new(), 1).unwrap();
    let mut pl = PlayerState::new();
    pl.load(&file, &|s: u16| s as u32, &step_float).unwrap();
    assert_eq!(pl.current_frame_idx, -1);
    assert_eq!(pl.particles.len(), 0);
    assert_eq!(pl.load(b"NEBUL", &|s: u16| s as u32, &step_float).err(), Some(NblError::Truncated));
}

#[test]
fn saved_frames_play_back_after_loading() {
    let frames = vec![
        frame(vec![3, 1], vec![10, 20]),
        frame(vec![5], vec![30]),
        frame(vec![2, 4, 6], vec![1, 2, 3]),
    ];
    let file = encode_nbl_file(&header(), &Vec::new(), &frames, 2).unwrap();
    let mut pl = PlayerState::new();
    pl.load(&file, &|s: u16| s as u32 * 3, &step_float).unwrap();
    for target in [2u32, 0, 1, 2, 1] {
        pl.seek_to(&file, target, &|s: u16| s as u32 * 3, &step_float).unwrap();
        let f = &frames[target as usize];
        let mut want: Vec<(i32, u8, u32)> = (0..f.ids.len()).map(|i| (f.ids[i], f.r[i], f.sizes[i] as u32 * 3)).collect();
        want.sort();
        let got: Vec<(i32, u8, u32)> = pl.snapshot().iter().map(|p| (p.id, p.color[0], p.size)).collect();
        assert_eq!(got, want);
        assert_eq!(pl.current_frame_idx, target as i32);
    }
}

fn sum_sizes(a: Particle, b: Particle) -> Particle {
    Particle { size: a.size + b.size, ..a }
}

fn id_red_size(v: &[Particle]) -> Vec<(i32, u8, u32)> {
    v.iter().map(|p| (p.id, p.color[0], p.size)).collect()
}

#[test]
fn interpolation_pairs_particles_by_id() {
    let a = vec![particle(1, 10, 1), particle(2, 20, 2)];
    let b = vec![particle(2, 30, 5), particle(3, 40, 7), particle(2, 50, 9)];
    // Nearer `a`: the particle only in `a` stays, the pair blends with the
    // last particle of `b` that has its id, the one only in `b` is left out.
    let near_a = interpolate_by_id(&a, &b, false, &sum_sizes);
    assert_eq!(id_red_size(&near_a), vec![(1, 10, 1), (2, 20, 11)]);
    // Nearer `b`: the particle only in `a` goes, the one only in `b` comes.
    let near_b = interpolate_by_id(&a, &b, true, &sum_sizes);
    assert_eq!(id_red_size(&near_b), vec![(2, 20, 11), (3, 40, 7)]);
    let none: Vec<Particle> = Vec::new();
    assert!(interpolate_by_id(&none, &b, false, &sum_sizes).is_empty());
    assert!(interpolate_by_id(&a, &none, true, &sum_sizes).is_empty());
}
