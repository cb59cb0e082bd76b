//! The particleex compiler's pipeline: which lines of the command texts
//! are commands, which of them fail to read, how particle ids are threaded
//! from one command to the next, and how the generated tracks become frames.
//! Generating a command's tracks evaluates its expressions in floating
//! point; the caller hands that step in as a closure.
use vstd::prelude::*;
use crate::particleex::{
    is_command_line, layout_spec, read_from, split_args_spec, string_views, validate_command,
    CommandError, ParsedCommand,
};
use crate::state::Particle;
use crate::text::{chars_of, lowercase, string_from_chars, trim_chars, trimmed};
use crate::timeline::{
    frame_count, frame_spec, last_tick, lemma_ordered_frames, max_last_tick, ticks_increasing,
    tracks_ordered, tracks_to_frames, Track,
};

verus! {

/// Frame rate of a compiled animation.
pub const COMPILED_FPS: u16 = 60;

/// Why compiling produced no frames.
pub enum CompileError {
    /// No particle was generated, and these command lines (trimmed, in
    /// order) could not be read.
    Failed(Vec<String>),
    /// No particle was generated and every command line was read.
    NoParticles,
    /// A keyframe falls on the last tick a `u32` can count, so the frames
    /// cannot be counted.
    TooLong,
}

// ───────────────────────── lines ─────────────────────────

/// The pieces of `s` finished so far and the one being read, splitting at
/// `\n`.
pub open spec fn newline_scan(s: Seq<char>) -> (Seq<Seq<char>>, Seq<char>)
    decreases s.len(),
{
    if s.len() == 0 {
        (Seq::empty(), Seq::empty())
    } else {
        let st = newline_scan(s.drop_last());
        if s.last() == '\n' {
            (st.0.push(st.1), Seq::empty())
        } else {
            (st.0, st.1.push(s.last()))
        }
    }
}

/// The pieces of `s` between line breaks, the last one included even when
/// empty. Trimmed, they are the lines of `s` (a `\r` before a `\n` is
/// trimmed away), plus blank pieces, which are never commands.
pub open spec fn text_lines(s: Seq<char>) -> Seq<Seq<char>> {
    let st = newline_scan(s);
    st.0.push(st.1)
}

/// Every piece of every text, with the index of its text, in order.
pub open spec fn pieces(texts: Seq<Seq<char>>) -> Seq<(int, Seq<char>)>
    decreases texts.len(),
{
    if texts.len() == 0 {
        Seq::empty()
    } else {
        let e = texts.len() - 1;
        pieces(texts.drop_last()) + text_lines(texts.last()).map_values(
            |l: Seq<char>| (e, l),
        )
    }
}

/// Whether a piece is a command line: trimmed, it holds something and its
/// lower case starts with `particleex` or `particlex`, with or without a
/// slash.
#[verifier::opaque]
pub open spec fn is_command_piece(p: Seq<char>) -> bool {
    trimmed(p).len() > 0 && is_command_line(lowercase(trimmed(p)))
}

/// A piece without its leading and trailing whitespace.
#[verifier::opaque]
pub open spec fn line_text(p: Seq<char>) -> Seq<char> {
    trimmed(p)
}

/// The command lines among the pieces, trimmed, with their text's index.
pub open spec fn command_lines(ps: Seq<(int, Seq<char>)>) -> Seq<(int, Seq<char>)>
    decreases ps.len(),
{
    if ps.len() == 0 {
        Seq::empty()
    } else {
        let r = command_lines(ps.drop_last());
        if is_command_piece(ps.last().1) {
            r.push((ps.last().0, line_text(ps.last().1)))
        } else {
            r
        }
    }
}

/// Whether the arguments of `line` read as a command.
#[verifier::opaque]
pub open spec fn line_reads(line: Seq<char>) -> bool {
    layout_spec(split_args_spec(line)) is Some
}

/// `c` is the command read from the arguments of `line`.
#[verifier::opaque]
pub open spec fn command_of(c: ParsedCommand, line: Seq<char>) -> bool {
    read_from(c, split_args_spec(line))
}

/// The command lines whose arguments read as a command.
pub open spec fn parsed_lines(ls: Seq<(int, Seq<char>)>) -> Seq<(int, Seq<char>)>
    decreases ls.len(),
{
    if ls.len() == 0 {
        Seq::empty()
    } else {
        let r = parsed_lines(ls.drop_last());
        if line_reads(ls.last().1) {
            r.push(ls.last())
        } else {
            r
        }
    }
}

/// The command lines whose arguments do not read as a command.
pub open spec fn failed_lines(ls: Seq<(int, Seq<char>)>) -> Seq<Seq<char>>
    decreases ls.len(),
{
    if ls.len() == 0 {
        Seq::empty()
    } else {
        let r = failed_lines(ls.drop_last());
        if !line_reads(ls.last().1) {
            r.push(ls.last().1)
        } else {
            r
        }
    }
}

/// The first particle id of the `i`-th generated command: 0 for the first,
/// then the next id the previous generation returned.
pub open spec fn start_id(results: Seq<(Vec<Track>, i32)>, i: int) -> i32 {
    if i == 0 {
        0
    } else {
        results[i - 1].1
    }
}

/// Every track the generations returned, in order.
pub open spec fn all_tracks(results: Seq<(Vec<Track>, i32)>) -> Seq<Track>
    decreases results.len(),
{
    if results.len() == 0 {
        Seq::empty()
    } else {
        all_tracks(results.drop_last()) + results.last().0@
    }
}

/// What a generation of tracks starting at id `start` must return: tracks
/// in strictly increasing id order, every id in `start..next` where `next`
/// is the id returned (never below `start`), each track with keyframes in
/// strictly increasing tick order.
pub open spec fn well_generated(r: (Vec<Track>, i32), start: i32) -> bool {
    &&& start <= r.1
    &&& forall|i: int|
        0 <= i < r.0@.len() ==> {
            &&& start <= #[trigger] r.0@[i].id < r.1
            &&& r.0@[i].keyframes@.len() > 0
            &&& ticks_increasing(r.0@[i].keyframes@)
        }
    &&& forall|i: int, j: int| 0 <= i < j < r.0@.len() ==> r.0@[i].id < r.0@[j].id
}

/// The id the generations leave off at: 0 before the first.
pub open spec fn next_id(results: Seq<(Vec<Track>, i32)>) -> i32 {
    if results.len() == 0 {
        0
    } else {
        results.last().1
    }
}

proof fn lemma_all_tracks_ordered(results: Seq<(Vec<Track>, i32)>)
    requires
        forall|i: int|
            0 <= i < results.len() ==> well_generated(#[trigger] results[i], start_id(results, i)),
    ensures
        tracks_ordered(all_tracks(results)),
        forall|k: int|
            0 <= k < all_tracks(results).len() ==> #[trigger] all_tracks(results)[k].id < next_id(results),
    decreases results.len(),
{
    if results.len() > 0 {
        let n = results.len();
        let d = results.drop_last();
        assert forall|i: int| 0 <= i < d.len() implies well_generated(#[trigger] d[i], start_id(d, i)) by {
            assert(d[i] == results[i]);
            assert(start_id(d, i) == start_id(results, i));
        }
        lemma_all_tracks_ordered(d);
        let a = all_tracks(d);
        let b = results.last().0@;
        let start = start_id(results, n - 1);
        assert(well_generated(results[n - 1], start));
        assert(start == next_id(d));
        assert(all_tracks(results) == a + b);
        let t = a + b;
        assert forall|i: int, j: int| 0 <= i < j < t.len() implies t[i].id < t[j].id by {
            if j < a.len() {
            } else if i < a.len() {
                assert(t[j] == b[j - a.len()]);
                assert(start <= b[j - a.len()].id);
            } else {
                assert(t[i] == b[i - a.len()]);
                assert(t[j] == b[j - a.len()]);
            }
        }
        assert forall|i: int| 0 <= i < t.len() implies #[trigger] t[i].keyframes@.len() > 0
            && ticks_increasing(t[i].keyframes@) by {
            if i >= a.len() {
                assert(t[i] == b[i - a.len()]);
                assert(results[n - 1].0@ == b);
                assert(start <= results[n - 1].0@[i - a.len()].id);
            } else {
                assert(t[i] == a[i]);
                assert(a[i].keyframes@.len() > 0);
            }
        }
        assert forall|k: int| 0 <= k < t.len() implies #[trigger] t[k].id < next_id(results) by {
            if k < a.len() {
                assert(t[k] == a[k]);
                assert(a[k].id < start);
            } else {
                assert(t[k] == b[k - a.len()]);
            }
        }
    }
}

/// `results` are what `generate` may return for the commands `cmds` read
/// from the lines `parsed`, one by one: each call gets the index of the
/// line's text, the command and the id the previous call left off at.
pub open spec fn generated<G: Fn(usize, &ParsedCommand, i32) -> (Vec<Track>, i32)>(
    parsed: Seq<(int, Seq<char>)>,
    generate: G,
    cmds: Seq<ParsedCommand>,
    results: Seq<(Vec<Track>, i32)>,
) -> bool {
    &&& cmds.len() == parsed.len()
    &&& results.len() == parsed.len()
    &&& forall|i: int|
        0 <= i < parsed.len() ==> {
            &&& command_of(#[trigger] cmds[i], parsed[i].1)
            &&& call_ensures(generate, (parsed[i].0 as usize, &cmds[i], start_id(results, i)), results[i])
        }
}

/// What one piece of a text is to the compiler.
enum LineOutcome {
    Skip,
    Failed(String),
    Command(ParsedCommand),
}

fn read_line(piece: &Vec<char>) -> (r: LineOutcome)
    ensures
        match r {
            LineOutcome::Skip => !is_command_piece(piece@),
            LineOutcome::Failed(s) => is_command_piece(piece@) && !line_reads(line_text(piece@))
                && s@ == line_text(piece@),
            LineOutcome::Command(c) => is_command_piece(piece@) && line_reads(line_text(piece@))
                && command_of(c, line_text(piece@)),
        },
{
    reveal(line_reads);
    reveal(command_of);
    reveal(is_command_piece);
    reveal(line_text);
    let text = string_from_chars(piece);
    match validate_command(text.as_str()) {
        Ok(c) => LineOutcome::Command(c),
        Err(CommandError::BadArguments) => {
            let t = trim_chars(piece);
            LineOutcome::Failed(string_from_chars(&t))
        },
        Err(_) => LineOutcome::Skip,
    }
}

fn text_lines_exec(s: &Vec<char>) -> (r: Vec<Vec<char>>)
    ensures
        r@.map_values(|v: Vec<char>| v@) == text_lines(s@),
{
    let mut done: Vec<Vec<char>> = Vec::new();
    let mut cur: Vec<char> = Vec::new();
    let mut i: usize = 0;
    while i < s.len()
        invariant
            i <= s@.len(),
            newline_scan(s@.take(i as int)) == (done@.map_values(|v: Vec<char>| v@), cur@),
        decreases s@.len() - i,
    {
        assert(s@.take(i + 1).drop_last() =~= s@.take(i as int));
        if s[i] == '\n' {
            let ghost before = done@;
            let line = cur;
            cur = Vec::new();
            done.push(line);
            assert(done@.map_values(|v: Vec<char>| v@) =~= before.map_values(|v: Vec<char>| v@).push(
                line@,
            ));
        } else {
            cur.push(s[i]);
        }
        i = i + 1;
    }
    assert(s@.take(s@.len() as int) =~= s@);
    let ghost before = done@;
    done.push(cur);
    assert(done@.map_values(|v: Vec<char>| v@) =~= before.map_values(|v: Vec<char>| v@).push(
        cur@,
    ));
    done
}

fn pieces_exec(texts: &Vec<String>) -> (r: Vec<(usize, Vec<char>)>)
    ensures
        r@.map_values(|p: (usize, Vec<char>)| (p.0 as int, p.1@)) == pieces(string_views(texts@)),
{
    let ghost tv = string_views(texts@);
    let mut r: Vec<(usize, Vec<char>)> = Vec::new();
    let mut e: usize = 0;
    while e < texts.len()
        invariant
            e <= texts@.len(),
            tv == string_views(texts@),
            r@.map_values(|p: (usize, Vec<char>)| (p.0 as int, p.1@)) == pieces(tv.take(e as int)),
        decreases texts@.len() - e,
    {
        let cs = chars_of(texts[e].as_str());
        let lines = text_lines_exec(&cs);
        let ghost base = r@.map_values(|p: (usize, Vec<char>)| (p.0 as int, p.1@));
        let ghost lv = lines@.map_values(|v: Vec<char>| v@);
        let ghost ei = e as int;
        let mut k: usize = 0;
        let n = lines.len();
        let mut lines = lines;
        let mut taken: Vec<Vec<char>> = Vec::new();
        while k < n
            invariant
                k <= n,
                n == lv.len(),
                e < texts@.len(),
                ei == e,
                lines@.len() == n - k,
                forall|j: int| 0 <= j < n - k ==> #[trigger] lines@[j]@ == lv[(j + k) as int],
                r@.map_values(|p: (usize, Vec<char>)| (p.0 as int, p.1@)) == base
                    + lv.take(k as int).map_values(|l: Seq<char>| (ei, l)),
            decreases n - k,
        {
            let line = lines.remove(0);
            let ghost before = r@;
            r.push((e, line));
            assert(line@ == lv[k as int]);
            assert(lv.take(k + 1).map_values(|l: Seq<char>| (ei, l)) =~= lv.take(k as int).map_values(
                |l: Seq<char>| (ei, l),
            ).push((ei, lv[k as int])));
            assert(r@.map_values(|p: (usize, Vec<char>)| (p.0 as int, p.1@)) =~= before.map_values(
                |p: (usize, Vec<char>)| (p.0 as int, p.1@),
            ).push((ei, lv[k as int])));
            k = k + 1;
            assert forall|j: int| 0 <= j < n - k implies #[trigger] lines@[j]@ == lv[(j + k) as int] by {}
        }
        assert(lv.take(n as int) =~= lv);
        assert(tv.take(e + 1).drop_last() =~= tv.take(e as int));
        assert(tv.take(e + 1).last() == texts@[e as int]@);
        assert(cs@ == tv.take(e + 1).last());
        e = e + 1;
    }
    assert(tv.take(texts@.len() as int) =~= tv);
    r
}

/// Reads every piece in turn: the lines that fail, the tracks generated
/// for the commands, and (as ghosts) the commands and what each call of
/// `generate` returned.
fn run_commands<G: Fn(usize, &ParsedCommand, i32) -> (Vec<Track>, i32)>(
    ps: &Vec<(usize, Vec<char>)>,
    generate: &G,
) -> (r: (Vec<String>, Vec<Track>, Ghost<Seq<ParsedCommand>>, Ghost<Seq<(Vec<Track>, i32)>>))
    requires
        forall|e: usize, c: ParsedCommand, id: i32| generate.requires((e, &c, id)),
    ensures
        ({
            let pv = ps@.map_values(|p: (usize, Vec<char>)| (p.0 as int, p.1@));
            &&& generated(parsed_lines(command_lines(pv)), *generate, r.2@, r.3@)
            &&& string_views(r.0@) == failed_lines(command_lines(pv))
            &&& r.1@ == all_tracks(r.3@)
        }),
{
    let ghost pv = ps@.map_values(|p: (usize, Vec<char>)| (p.0 as int, p.1@));
    let mut failed: Vec<String> = Vec::new();
    let mut all: Vec<Track> = Vec::new();
    let mut next_id: i32 = 0;
    let ghost mut cmds: Seq<ParsedCommand> = Seq::empty();
    let ghost mut results: Seq<(Vec<Track>, i32)> = Seq::empty();
    let mut i: usize = 0;
    while i < ps.len()
        invariant
            i <= ps@.len(),
            pv == ps@.map_values(|p: (usize, Vec<char>)| (p.0 as int, p.1@)),
            forall|e: usize, c: ParsedCommand, id: i32| generate.requires((e, &c, id)),
            generated(parsed_lines(command_lines(pv.take(i as int))), *generate, cmds, results),
            string_views(failed@) == failed_lines(command_lines(pv.take(i as int))),
            all@ == all_tracks(results),
            next_id == if results.len() == 0 {
                0
            } else {
                results.last().1
            },
        decreases ps@.len() - i,
    {
        let ghost ls0 = command_lines(pv.take(i as int));
        assert(pv.take(i + 1).drop_last() =~= pv.take(i as int));
        assert(pv.take(i + 1).last() == pv[i as int]);
        let e = ps[i].0;
        match read_line(&ps[i].1) {
            LineOutcome::Command(cmd) => {
                let ghost line = (pv[i as int].0, line_text(pv[i as int].1));
                assert(command_lines(pv.take(i + 1)) == ls0.push(line));
                assert(ls0.push(line).drop_last() =~= ls0);
                let (mut tracks, nid) = generate(e, &cmd, next_id);
                proof {
                    let old_results = results;
                    let old_cmds = cmds;
                    let np = parsed_lines(ls0.push(line));
                    assert(np == parsed_lines(ls0).push(line));
                    results = results.push((tracks, nid));
                    cmds = cmds.push(cmd);
                    assert forall|j: int| 0 <= j < np.len() implies {
                        &&& command_of(#[trigger] cmds[j], np[j].1)
                        &&& call_ensures(*generate, (np[j].0 as usize, &cmds[j], start_id(results, j)), results[j])
                    } by {
                        if j < old_results.len() {
                            assert(cmds[j] == old_cmds[j]);
                            assert(results[j] == old_results[j]);
                            assert(start_id(results, j) == start_id(old_results, j));
                        }
                    }
                    assert(results.drop_last() =~= old_results);
                }
                all.append(&mut tracks);
                next_id = nid;
            },
            LineOutcome::Failed(t) => {
                let ghost line = (pv[i as int].0, line_text(pv[i as int].1));
                assert(command_lines(pv.take(i + 1)) == ls0.push(line));
                assert(ls0.push(line).drop_last() =~= ls0);
                let ghost before = failed@;
                failed.push(t);
                assert(string_views(failed@) =~= string_views(before).push(line.1));
            },
            LineOutcome::Skip => {
                assert(command_lines(pv.take(i + 1)) == ls0);
            },
        }
        i = i + 1;
    }
    assert(pv.take(ps@.len() as int) =~= pv);
    (failed, all, Ghost(cmds), Ghost(results))
}

/// Compiles command texts into frames at 60 frames a second. Each text is
/// split into lines; a trimmed line is a command when it holds something
/// and its lower case starts with `particleex` or `particlex` (with or
/// without a slash), other lines are skipped. Each command that reads is
/// handed to `generate` with its text's index and the first free particle
/// id (0 to begin with, then the id the previous call returned); the tracks
/// of all calls, in order, are laid out as frames. When no track was
/// generated, the result is the trimmed lines that could not be read, or
/// `NoParticles` when there are none.
pub fn compile_lines<G: Fn(usize, &ParsedCommand, i32) -> (Vec<Track>, i32)>(
    texts: &Vec<String>,
    generate: &G,
) -> (r: Result<(Vec<Vec<Particle>>, u16), CompileError>)
    requires
        forall|e: usize, c: ParsedCommand, id: i32| generate.requires((e, &c, id)),
        forall|e: usize, c: ParsedCommand, id: i32, g: (Vec<Track>, i32)|
            #[trigger] call_ensures(generate, (e, &c, id), g) ==> well_generated(g, id),
    ensures
        ({
            let ls = command_lines(pieces(string_views(texts@)));
            let ps = parsed_lines(ls);
            let fs = failed_lines(ls);
            match r {
                Ok((frames, fps)) => {
                    &&& fps == COMPILED_FPS
                    &&& exists|cmds: Seq<ParsedCommand>, results: Seq<(Vec<Track>, i32)>|
                        {
                            &&& #[trigger] generated(ps, *generate, cmds, results)
                            &&& all_tracks(results).len() > 0
                            &&& max_last_tick(all_tracks(results)) < u32::MAX
                            &&& frames@.len() == frame_count(all_tracks(results))
                            &&& forall|f: int|
                                0 <= f < frames@.len() ==> #[trigger] frames@[f]@ == frame_spec(
                                    all_tracks(results),
                                    f,
                                )
                        }
                    &&& frames@.len() > 0
                    &&& frames@.last()@.len() > 0
                    &&& forall|f: int, i: int, j: int|
                        0 <= f < frames@.len() && 0 <= i < j < frames@[f]@.len()
                            ==> #[trigger] frames@[f]@[i].id != #[trigger] frames@[f]@[j].id
                },
                Err(CompileError::Failed(lines)) => {
                    &&& string_views(lines@) == fs
                    &&& fs.len() > 0
                    &&& exists|cmds: Seq<ParsedCommand>, results: Seq<(Vec<Track>, i32)>|
                        #[trigger] generated(ps, *generate, cmds, results) && all_tracks(results).len()
                            == 0
                },
                Err(CompileError::NoParticles) => {
                    &&& fs.len() == 0
                    &&& exists|cmds: Seq<ParsedCommand>, results: Seq<(Vec<Track>, i32)>|
                        #[trigger] generated(ps, *generate, cmds, results) && all_tracks(results).len()
                            == 0
                },
                Err(CompileError::TooLong) => exists|
                    cmds: Seq<ParsedCommand>,
                    results: Seq<(Vec<Track>, i32)>,
                |
                    #[trigger] generated(ps, *generate, cmds, results) && all_tracks(results).len() > 0
                        && max_last_tick(all_tracks(results)) == u32::MAX,
            }
        }),
{
    let ps = pieces_exec(texts);
    let (failed, all, Ghost(cmds), Ghost(results)) = run_commands(&ps, generate);
    let ghost ps_spec = parsed_lines(command_lines(pieces(string_views(texts@))));
    assert(generated(ps_spec, *generate, cmds, results));
    if all.len() == 0 {
        if failed.len() == 0 {
            return Err(CompileError::NoParticles);
        }
        return Err(CompileError::Failed(failed));
    }
    if last_tick(&all) == u32::MAX {
        return Err(CompileError::TooLong);
    }
    let frames = tracks_to_frames(&all);
    proof {
        assert forall|i: int| 0 <= i < results.len() implies well_generated(
            #[trigger] results[i],
            start_id(results, i),
        ) by {
            assert(call_ensures(*generate, (ps_spec[i].0 as usize, &cmds[i], start_id(results, i)), results[i]));
        }
        lemma_all_tracks_ordered(results);
        lemma_ordered_frames(all@);
        let ts = all@;
        assert forall|f: int, i: int, j: int|
            0 <= f < frames@.len() && 0 <= i < j < frames@[f]@.len() implies #[trigger] frames@[f]@[i].id
            != #[trigger] frames@[f]@[j].id by {
            assert(frames@[f]@ == frame_spec(ts, f));
            assert(frame_spec(ts, f)[i].id < frame_spec(ts, f)[j].id);
        }
        assert(frames@[frames@.len() - 1]@ == frame_spec(ts, frame_count(ts) - 1));
    }
    Ok((frames, COMPILED_FPS))
}

} // verus!
