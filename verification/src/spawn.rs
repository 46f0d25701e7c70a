//! Preparing a dispatched job for launch: splitting its command line into
//! words and building the child environment.
//!
//! The environment holds one `QUEUE<d>` variable per resource dimension with
//! the comma-joined assigned slot indices, overlaid by the user's overrides,
//! which win on a name collision.

use vstd::prelude::*;
use crate::job::{EnvPair, EnvPairView, env_views};
use crate::numfmt::{dec_of, fmt_usize};
use crate::listfmt::{enc_list, encode_list};
use crate::chars::chars_to_string;

verus! {

/// What shell-word splitting yields for a command line.  The result depends
/// on the characters alone; `None` stands for the one parse error, an
/// unclosed quote.
pub uninterp spec fn shell_split_of(s: Seq<char>) -> Option<Seq<Seq<char>>>;

/// Relies on `shell_words::split`: whitespace-separated words with quoting
/// respected, `Err` exactly on an unclosed quote.
#[verifier::external_body]
fn shell_split(s: &str) -> (r: Option<Vec<String>>)
    ensures
        r is Some <==> shell_split_of(s@) is Some,
        r is Some ==> r.unwrap().deep_view() == shell_split_of(s@).unwrap(),
{
    match shell_words::split(s) {
        Ok(words) => Some(words),
        Err(_) => None,
    }
}

/// Splits a command line into the executable and its arguments.  `None` when
/// the line cannot be split or holds no word at all.
pub fn prepare_command(command: &String) -> (r: Option<(String, Vec<String>)>)
    ensures
        r is Some <==> (shell_split_of(command@) is Some && shell_split_of(
            command@,
        ).unwrap().len() > 0),
        r is Some ==> {
            let words = shell_split_of(command@).unwrap();
            &&& r.unwrap().0@ == words[0]
            &&& r.unwrap().1.deep_view() == words.drop_first()
        },
{
    let mut words = match shell_split(command.as_str()) {
        Some(w) => w,
        None => {
            return None;
        },
    };
    if words.len() == 0 {
        return None;
    }
    let ghost wordsv = shell_split_of(command@).unwrap();
    assert(words@[0]@ == wordsv[0]);
    let exe = words.remove(0);
    proof {
        assert(words.deep_view() =~= wordsv.drop_first());
    }
    Some((exe, words))
}

/// The name of the slot variable for dimension `d`.
pub open spec fn queue_var_name(d: int) -> Seq<char> {
    seq!['Q', 'U', 'E', 'U', 'E'] + dec_of(d as nat)
}

/// Whether the user overrides a variable of this name.
pub open spec fn overridden(over: Seq<EnvPairView>, name: Seq<char>) -> bool {
    exists|i: int| 0 <= i < over.len() && (#[trigger] over[i]).name == name
}

/// The slot variables that survive the user's overrides, for the first `n`
/// dimensions.
pub open spec fn kept_queue_pairs(
    alloc: Seq<Seq<usize>>,
    over: Seq<EnvPairView>,
    n: int,
) -> Seq<EnvPairView>
    decreases n,
{
    if n <= 0 {
        Seq::<EnvPairView>::empty()
    } else {
        let p = kept_queue_pairs(alloc, over, n - 1);
        if overridden(over, queue_var_name(n - 1)) {
            p
        } else {
            p.push(EnvPairView { name: queue_var_name(n - 1), value: enc_list(alloc[n - 1], ',') })
        }
    }
}

/// The child environment of a dispatched job: one `QUEUE<d>` variable per
/// dimension with its comma-joined slot indices, then the user's overrides;
/// a user override of the same name replaces the slot variable.
pub fn build_env(alloc: &Vec<Vec<usize>>, overrides: &Vec<EnvPair>) -> (r: Vec<EnvPair>)
    ensures
        env_views(r@) == kept_queue_pairs(
            alloc.deep_view(),
            env_views(overrides@),
            alloc.deep_view().len() as int,
        ) + env_views(overrides@),
{
    let ghost allocv = alloc.deep_view();
    let ghost overv = env_views(overrides@);
    let mut r: Vec<EnvPair> = Vec::new();
    let mut d: usize = 0;
    assert(env_views(r@) =~= kept_queue_pairs(allocv, overv, 0));
    while d < alloc.len()
        invariant
            allocv == alloc.deep_view(),
            overv == env_views(overrides@),
            allocv.len() == alloc@.len(),
            d <= allocv.len(),
            env_views(r@) == kept_queue_pairs(allocv, overv, d as int),
        decreases allocv.len() - d,
    {
        let mut namev: Vec<char> = Vec::new();
        namev.push('Q');
        namev.push('U');
        namev.push('E');
        namev.push('U');
        namev.push('E');
        let mut digits = fmt_usize(d);
        let mut k: usize = 0;
        while k < digits.len()
            invariant
                digits@ == dec_of(d as nat),
                k <= digits@.len(),
                namev@ == seq!['Q', 'U', 'E', 'U', 'E'] + digits@.take(k as int),
            decreases digits@.len() - k,
        {
            namev.push(digits[k]);
            k = k + 1;
            assert(digits@.take(k as int) =~= digits@.take(k - 1).push(digits@[k - 1]));
            assert(namev@ =~= seq!['Q', 'U', 'E', 'U', 'E'] + digits@.take(k as int));
        }
        assert(digits@.take(digits@.len() as int) =~= digits@);
        assert(namev@ == queue_var_name(d as int));
        let name = chars_to_string(&namev);
        let mut hit = false;
        let mut i: usize = 0;
        while i < overrides.len()
            invariant
                overv == env_views(overrides@),
                overv.len() == overrides@.len(),
                i <= overv.len(),
                name@ == queue_var_name(d as int),
                hit ==> overridden(overv, name@),
                !hit ==> forall|w: int| 0 <= w < i ==> (#[trigger] overv[w]).name != name@,
            decreases overv.len() - i,
        {
            if !hit && overrides[i].name.eq(&name) {
                assert(overv[i as int].name == name@);
                hit = true;
            }
            i = i + 1;
        }
        proof {
            if !hit && overridden(overv, name@) {
                let w = choose|w: int| 0 <= w < overv.len() && (#[trigger] overv[w]).name == name@;
            }
        }
        if !hit {
            let value = chars_to_string(&encode_list(&alloc[d], ','));
            assert(alloc@[d as int]@ == allocv[d as int]);
            let ghost before = env_views(r@);
            r.push(EnvPair { name, value });
            assert(env_views(r@) =~= before.push(
                EnvPairView {
                    name: queue_var_name(d as int),
                    value: enc_list(allocv[d as int], ','),
                },
            ));
        }
        d = d + 1;
    }
    let ghost kept = kept_queue_pairs(allocv, overv, allocv.len() as int);
    let mut i: usize = 0;
    assert(env_views(r@) =~= kept + overv.take(0));
    while i < overrides.len()
        invariant
            overv == env_views(overrides@),
            overv.len() == overrides@.len(),
            i <= overv.len(),
            env_views(r@) == kept + overv.take(i as int),
        decreases overv.len() - i,
    {
        let ghost before = env_views(r@);
        let name = overrides[i].name.clone();
        let value = overrides[i].value.clone();
        r.push(EnvPair { name, value });
        i = i + 1;
        proof {
            assert(overv.take(i as int) =~= overv.take(i - 1).push(overv[i - 1]));
            assert(env_views(r@) =~= before.push(overv[i - 1]));
            assert(env_views(r@) =~= kept + overv.take(i as int));
        }
    }
    proof {
        assert(overv.take(overv.len() as int) =~= overv);
        assert(env_views(r@) =~= kept + overv);
    }
    r
}

} // verus!
