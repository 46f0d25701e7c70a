//! Job records and their on-disk shape.
//!
//! A record is ten lines, all present even when logically empty: id,
//! comma-joined resource request, command, space-joined `NAME=VALUE`
//! environment overrides, stdout path, stderr path, append flag, space-joined
//! dependency ids, per-dimension assigned-slot lists (comma within a
//! dimension, semicolon between dimensions), and pid.  A job is pending
//! exactly while its pid field is empty; its assigned slots are written,
//! together with the pid, only at dispatch.

use vstd::prelude::*;
use crate::numfmt::{dec_of, dec_val, is_dec_seq, lemma_dec_roundtrip};
use crate::text::{join_with, split_on, lemma_split_join};
use crate::listfmt::{enc_list, parse_list_spec, lemma_list_roundtrip, lemma_enc_list_no_char};

verus! {

/// One environment override: `name` is set to `value` in the child.
#[derive(Clone, Debug, PartialEq, Eq)]
pub struct EnvPair {
    pub name: String,
    pub value: String,
}

#[verifier::ext_equal]
pub ghost struct EnvPairView {
    pub name: Seq<char>,
    pub value: Seq<char>,
}

impl View for EnvPair {
    type V = EnvPairView;

    open spec fn view(&self) -> EnvPairView {
        EnvPairView { name: self.name@, value: self.value@ }
    }
}

/// One submitted job, as persisted in the queue file.
#[derive(Clone, Debug, PartialEq, Eq)]
pub struct JobRecord {
    /// Unique, strictly increasing per instance.
    pub id: usize,
    /// Required slot count per resource dimension.
    pub nslots: Vec<usize>,
    /// The command line, split into words only at dispatch.
    pub command: String,
    /// User-supplied environment overrides.
    pub env: Vec<EnvPair>,
    /// Path for standard output; empty means none recorded.
    pub out: String,
    /// Path for standard error; empty means none recorded.
    pub err: String,
    /// Whether redirection appends instead of truncating.
    pub append: bool,
    /// Ids of jobs that must leave the queue before this one may run.
    pub deps: Vec<usize>,
    /// Slot indices per dimension; empty until dispatched.
    pub assigned: Vec<Vec<usize>>,
    /// Process id; `None` while pending.
    pub pid: Option<usize>,
}

#[verifier::ext_equal]
pub ghost struct JobView {
    pub id: usize,
    pub nslots: Seq<usize>,
    pub command: Seq<char>,
    pub env: Seq<EnvPairView>,
    pub out: Seq<char>,
    pub err: Seq<char>,
    pub append: bool,
    pub deps: Seq<usize>,
    pub assigned: Seq<Seq<usize>>,
    pub pid: Option<usize>,
}

/// The views of the records in a queue.
pub open spec fn job_views(jobs: Seq<JobRecord>) -> Seq<JobView> {
    Seq::new(jobs.len(), |i: int| jobs[i]@)
}

/// The views of a vector of override pairs.
pub open spec fn env_views(env: Seq<EnvPair>) -> Seq<EnvPairView> {
    Seq::new(env.len(), |i: int| env[i]@)
}

/// The views of a vector of slot-index vectors.
pub open spec fn slots_views(a: Seq<Vec<usize>>) -> Seq<Seq<usize>> {
    Seq::new(a.len(), |i: int| a[i]@)
}

impl View for JobRecord {
    type V = JobView;

    open spec fn view(&self) -> JobView {
        JobView {
            id: self.id,
            nslots: self.nslots@,
            command: self.command@,
            env: env_views(self.env@),
            out: self.out@,
            err: self.err@,
            append: self.append,
            deps: self.deps@,
            assigned: slots_views(self.assigned@),
            pid: self.pid,
        }
    }
}

impl JobView {
    /// A job runs exactly while a pid is recorded for it.
    pub open spec fn is_running(self) -> bool {
        self.pid is Some
    }
}

impl JobRecord {
    /// A job runs exactly while a pid is recorded for it.
    pub fn is_running(&self) -> (r: bool)
        ensures
            r == self@.is_running(),
    {
        self.pid.is_some()
    }
}

/// A field that must stay on its own line.
pub open spec fn line_ok(s: Seq<char>) -> bool {
    !s.contains('\n')
}

/// An override that survives the space-and-equals encoding: non-empty name
/// free of `=` and spaces, value free of spaces.
pub open spec fn env_pair_wf(p: EnvPairView) -> bool {
    &&& p.name.len() > 0
    &&& !p.name.contains('=')
    &&& !p.name.contains(' ')
    &&& !p.name.contains('\n')
    &&& !p.value.contains(' ')
    &&& !p.value.contains('\n')
}

/// What the record codec preserves exactly: line-safe text fields,
/// encodable overrides, and assigned slots present exactly for running jobs.
pub open spec fn enc_wf(j: JobView) -> bool {
    &&& line_ok(j.command)
    &&& line_ok(j.out)
    &&& line_ok(j.err)
    &&& forall|i: int| 0 <= i < j.env.len() ==> env_pair_wf(#[trigger] j.env[i])
    &&& (j.pid is None ==> j.assigned.len() == 0)
    &&& (j.pid is Some ==> j.assigned.len() >= 1)
}

pub open spec fn true_chars() -> Seq<char> {
    seq!['t', 'r', 'u', 'e']
}

pub open spec fn false_chars() -> Seq<char> {
    seq!['f', 'a', 'l', 's', 'e']
}

pub open spec fn enc_bool(b: bool) -> Seq<char> {
    if b {
        true_chars()
    } else {
        false_chars()
    }
}

pub open spec fn enc_env_piece(p: EnvPairView) -> Seq<char> {
    p.name + seq!['='] + p.value
}

pub open spec fn enc_env(env: Seq<EnvPairView>) -> Seq<char> {
    if env.len() == 0 {
        Seq::<char>::empty()
    } else {
        join_with(Seq::new(env.len(), |i: int| enc_env_piece(env[i])), ' ')
    }
}

/// An override piece splits at its first `=`; the name may not be empty.
pub open spec fn parse_env_piece(s: Seq<char>) -> Option<EnvPairView> {
    match s.index_of_first('=') {
        None => None,
        Some(i) => if i == 0 {
            None
        } else {
            Some(EnvPairView { name: s.take(i), value: s.skip(i + 1) })
        },
    }
}

pub open spec fn parse_env_spec(s: Seq<char>) -> Option<Seq<EnvPairView>> {
    if s.len() == 0 {
        Some(Seq::<EnvPairView>::empty())
    } else {
        let pieces = split_on(s, ' ');
        if forall|i: int| 0 <= i < pieces.len() ==> parse_env_piece(#[trigger] pieces[i]) is Some {
            Some(Seq::new(pieces.len(), |i: int| parse_env_piece(pieces[i]).unwrap()))
        } else {
            None
        }
    }
}

pub open spec fn enc_assigned(a: Seq<Seq<usize>>) -> Seq<char> {
    if a.len() == 0 {
        Seq::<char>::empty()
    } else {
        join_with(Seq::new(a.len(), |d: int| enc_list(a[d], ',')), ';')
    }
}

/// The assigned-slots field of a running job: semicolon-separated comma
/// lists, one per dimension.
pub open spec fn parse_assigned_spec(s: Seq<char>) -> Option<Seq<Seq<usize>>> {
    let pieces = split_on(s, ';');
    if forall|d: int| 0 <= d < pieces.len() ==> parse_list_spec(#[trigger] pieces[d], ',') is Some {
        Some(Seq::new(pieces.len(), |d: int| parse_list_spec(pieces[d], ',').unwrap()))
    } else {
        None
    }
}

pub open spec fn enc_pid(pid: Option<usize>) -> Seq<char> {
    match pid {
        None => Seq::<char>::empty(),
        Some(p) => dec_of(p as nat),
    }
}

/// The ten lines of a record.
pub open spec fn enc_record(j: JobView) -> Seq<Seq<char>> {
    seq![
        dec_of(j.id as nat),
        enc_list(j.nslots, ','),
        j.command,
        enc_env(j.env),
        j.out,
        j.err,
        enc_bool(j.append),
        enc_list(j.deps, ' '),
        enc_assigned(j.assigned),
        enc_pid(j.pid),
    ]
}

/// What ten lines parse to; `None` is a corrupt record.
pub open spec fn parse_record_spec(lines: Seq<Seq<char>>) -> Option<JobView> {
    if lines.len() != 10 {
        None
    } else if !(is_dec_seq(lines[0]) && dec_val(lines[0]) <= usize::MAX) {
        None
    } else if parse_list_spec(lines[1], ',') is None {
        None
    } else if parse_env_spec(lines[3]) is None {
        None
    } else if !(lines[6] == true_chars() || lines[6] == false_chars()) {
        None
    } else if parse_list_spec(lines[7], ' ') is None {
        None
    } else if !(lines[9].len() == 0 || (is_dec_seq(lines[9]) && dec_val(lines[9]) <= usize::MAX)) {
        None
    } else if lines[9].len() == 0 {
        // pending: no pid, and no assigned slots may be recorded
        if lines[8].len() != 0 {
            None
        } else {
            Some(
                JobView {
                    id: dec_val(lines[0]) as usize,
                    nslots: parse_list_spec(lines[1], ',').unwrap(),
                    command: lines[2],
                    env: parse_env_spec(lines[3]).unwrap(),
                    out: lines[4],
                    err: lines[5],
                    append: lines[6] == true_chars(),
                    deps: parse_list_spec(lines[7], ' ').unwrap(),
                    assigned: Seq::<Seq<usize>>::empty(),
                    pid: None,
                },
            )
        }
    } else {
        match parse_assigned_spec(lines[8]) {
            None => None,
            Some(a) => Some(
                JobView {
                    id: dec_val(lines[0]) as usize,
                    nslots: parse_list_spec(lines[1], ',').unwrap(),
                    command: lines[2],
                    env: parse_env_spec(lines[3]).unwrap(),
                    out: lines[4],
                    err: lines[5],
                    append: lines[6] == true_chars(),
                    deps: parse_list_spec(lines[7], ' ').unwrap(),
                    assigned: a,
                    pid: Some(dec_val(lines[9]) as usize),
                },
            ),
        }
    }
}

/// An encodable override piece holds no space.
proof fn lemma_env_piece_no_space(p: EnvPairView)
    requires
        env_pair_wf(p),
    ensures
        !enc_env_piece(p).contains(' '),
        enc_env_piece(p).len() > 0,
{
    let s = enc_env_piece(p);
    if s.contains(' ') {
        let w = choose|w: int| 0 <= w < s.len() && s[w] == ' ';
        if w < p.name.len() {
            assert(p.name[w] == ' ');
        } else if w > p.name.len() {
            assert(p.value[w - p.name.len() - 1] == ' ');
        }
    }
}

/// Round trip for the environment-override field.
proof fn lemma_env_roundtrip(env: Seq<EnvPairView>)
    requires
        forall|i: int| 0 <= i < env.len() ==> env_pair_wf(#[trigger] env[i]),
    ensures
        parse_env_spec(enc_env(env)) == Some(env),
{
    if env.len() == 0 {
    } else {
        let strs = Seq::new(env.len(), |i: int| enc_env_piece(env[i]));
        assert forall|i: int| 0 <= i < strs.len() implies !(#[trigger] strs[i]).contains(' ')
            && strs[i].len() > 0 by {
            lemma_env_piece_no_space(env[i]);
        }
        let s = enc_env(env);
        assert(s.len() > 0) by {
            if strs.len() == 1 {
                assert(s == strs[0]);
            } else {
                assert(s == join_with(strs.drop_last(), ' ') + seq![' '] + strs.last());
            }
        }
        lemma_split_join(strs, ' ');
        assert forall|i: int| 0 <= i < strs.len() implies parse_env_piece(#[trigger] strs[i])
            == Some(env[i]) by {
            let p = env[i];
            let piece = enc_env_piece(p);
            piece.index_of_first_ensures('=');
            assert(piece[p.name.len() as int] == '=');
            assert(piece.contains('=')) by {
                assert(piece[p.name.len() as int] == '=');
            }
            let idx = piece.index_of_first('=').unwrap();
            assert(piece[idx] == '=');
            assert(idx <= p.name.len()) by {
                if idx > p.name.len() {
                    assert(piece[p.name.len() as int] == '=');
                }
            }
            assert(idx >= p.name.len()) by {
                if idx < p.name.len() {
                    assert(piece[idx] == p.name[idx]);
                    assert(p.name[idx] == '=');
                }
            }
            assert(piece.take(idx) =~= p.name);
            assert(piece.skip(idx + 1) =~= p.value);
        }
        let pieces = split_on(s, ' ');
        assert(pieces == strs);
        assert(Seq::new(pieces.len(), |i: int| parse_env_piece(pieces[i]).unwrap()) =~= env);
    }
}

/// Round trip for the assigned-slots field of a running job.
proof fn lemma_assigned_roundtrip(a: Seq<Seq<usize>>)
    requires
        a.len() >= 1,
    ensures
        parse_assigned_spec(enc_assigned(a)) == Some(a),
{
    let strs = Seq::new(a.len(), |d: int| enc_list(a[d], ','));
    assert forall|d: int| 0 <= d < strs.len() implies !(#[trigger] strs[d]).contains(';') by {
        lemma_enc_list_no_char(a[d], ',', ';');
    }
    let s = enc_assigned(a);
    lemma_split_join(strs, ';');
    let pieces = split_on(s, ';');
    assert(pieces == strs);
    assert forall|d: int| 0 <= d < pieces.len() implies parse_list_spec(#[trigger] pieces[d], ',')
        == Some(a[d]) by {
        lemma_list_roundtrip(a[d], ',');
    }
    assert(Seq::new(pieces.len(), |d: int| parse_list_spec(pieces[d], ',').unwrap()) =~= a);
}

/// Round trip: an encodable record parses back to the same job.
pub proof fn lemma_record_roundtrip(j: JobView)
    requires
        enc_wf(j),
    ensures
        parse_record_spec(enc_record(j)) == Some(j),
{
    let lines = enc_record(j);
    assert(lines.len() == 10);
    lemma_dec_roundtrip(j.id as nat);
    lemma_list_roundtrip(j.nslots, ',');
    lemma_env_roundtrip(j.env);
    lemma_list_roundtrip(j.deps, ' ');
    assert(true_chars() != false_chars()) by {
        assert(true_chars().len() == 4);
        assert(false_chars().len() == 5);
    }
    match j.pid {
        None => {
            assert(lines[9].len() == 0);
            assert(lines[8].len() == 0);
            assert(parse_record_spec(lines).unwrap() =~~= j);
        },
        Some(p) => {
            lemma_dec_roundtrip(p as nat);
            assert(lines[9].len() > 0);
            lemma_assigned_roundtrip(j.assigned);
            assert(parse_record_spec(lines).unwrap() =~~= j);
        },
    }
}

/// The queue file: the records' lines, in queue order.
pub open spec fn enc_queue(jobs: Seq<JobView>) -> Seq<Seq<char>>
    decreases jobs.len(),
{
    if jobs.len() == 0 {
        Seq::<Seq<char>>::empty()
    } else {
        enc_record(jobs.first()) + enc_queue(jobs.drop_first())
    }
}

/// What a queue file parses to: ten lines per record, every record sound.
pub open spec fn parse_queue_spec(lines: Seq<Seq<char>>) -> Option<Seq<JobView>>
    decreases lines.len(),
{
    if lines.len() == 0 {
        Some(Seq::<JobView>::empty())
    } else if lines.len() < 10 {
        None
    } else {
        match parse_record_spec(lines.take(10)) {
            None => None,
            Some(j) => match parse_queue_spec(lines.skip(10)) {
                None => None,
                Some(rest) => Some(seq![j] + rest),
            },
        }
    }
}

/// Round trip: an encodable queue parses back to the same jobs.
pub proof fn lemma_queue_roundtrip(jobs: Seq<JobView>)
    requires
        forall|i: int| 0 <= i < jobs.len() ==> enc_wf(#[trigger] jobs[i]),
    ensures
        parse_queue_spec(enc_queue(jobs)) == Some(jobs),
    decreases jobs.len(),
{
    if jobs.len() > 0 {
        let lines = enc_queue(jobs);
        let head = enc_record(jobs.first());
        let rest = enc_queue(jobs.drop_first());
        assert(head.len() == 10);
        assert(lines.take(10) =~= head);
        assert(lines.skip(10) =~= rest);
        lemma_record_roundtrip(jobs.first());
        assert(forall|i: int|
            0 <= i < jobs.drop_first().len() ==> enc_wf(#[trigger] jobs.drop_first()[i]));
        lemma_queue_roundtrip(jobs.drop_first());
        assert(seq![jobs.first()] + jobs.drop_first() =~= jobs);
    }
}

} // verus!
