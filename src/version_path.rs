use crate::events::Version;
use crate::color::{append_decimal, decimal};
use crate::text::{
    is_digit, lemma_decimal_parses, lemma_split_extend, parse_u32,
    parse_u32_spec, split_on, split_text, unsigned_part, views,
};
use vstd::prelude::*;
use vstd::string::*;

verus! {

/// The path after stepping into a child: a new level that starts at version 0.
pub open spec fn stepped_into(p: Seq<Version>) -> Seq<Version> {
    p.push(0)
}

/// The path after stepping out to the parent, or `None` at the root level.
pub open spec fn stepped_out(p: Seq<Version>) -> Option<Seq<Version>> {
    if p.len() <= 1 {
        None
    } else {
        Some(p.drop_last())
    }
}

/// The path with its last level moved to `v`.
pub open spec fn changed(p: Seq<Version>, v: Version) -> Seq<Version> {
    p.update(p.len() - 1, v)
}

/// Separator between the levels of a path in its textual form.
pub const BACKTRACE_VERSIONS_SEPARATOR: char = '_';

/// The textual form of a path: its versions in decimal, joined by `_`.
pub open spec fn path_text(p: Seq<Version>) -> Seq<char>
    decreases p.len(),
{
    if p.len() == 0 {
        seq![]
    } else if p.len() == 1 {
        decimal(p[0] as nat)
    } else {
        path_text(p.drop_last()) + "_"@ + decimal(p.last() as nat)
    }
}

/// What a textual path denotes: every piece between `_` must parse as a version.
pub open spec fn parse_path(s: Seq<char>) -> Option<Seq<Version>> {
    let pieces = split_on(s, BACKTRACE_VERSIONS_SEPARATOR);
    if forall|i: int| 0 <= i < pieces.len() ==> (#[trigger] parse_u32_spec(pieces[i])) is Some {
        Some(pieces.map_values(|x: Seq<char>| parse_u32_spec(x)->Some_0))
    } else {
        None
    }
}

/// Debugger position across an ancestry chain: one version per level, from
/// the root execution down to the current one. A valid path is never empty.
#[derive(Debug)]
pub struct BacktraceVersionsPath(pub Vec<Version>);

impl View for BacktraceVersionsPath {
    type V = Seq<Version>;

    open spec fn view(&self) -> Seq<Version> {
        self.0@
    }
}

impl Clone for BacktraceVersionsPath {
    fn clone(&self) -> (r: Self)
        ensures
            r@ == self@,
    {
        let mut v: Vec<Version> = Vec::new();
        for i in 0..self.0.len()
            invariant
                v@ == self@.take(i as int),
        {
            proof {
                assert(self@.take(i as int + 1) =~= self@.take(i as int).push(self@[i as int]));
            }
            v.push(self.0[i]);
        }
        proof {
            assert(self@.take(self@.len() as int) =~= self@);
        }
        BacktraceVersionsPath(v)
    }
}

impl Default for BacktraceVersionsPath {
    /// The path at the start of a top-level execution.
    fn default() -> (r: BacktraceVersionsPath)
        ensures
            r@ == seq![0u32],
    {
        BacktraceVersionsPath(vec![0])
    }
}

impl BacktraceVersionsPath {
    /// The path of a single top-level position.
    pub fn from_version(version: Version) -> (r: BacktraceVersionsPath)
        ensures
            r@ == seq![version],
    {
        BacktraceVersionsPath(vec![version])
    }

    /// The version at the current level.
    pub fn last(&self) -> (r: Version)
        requires
            self@.len() > 0,
        ensures
            r == self@.last(),
    {
        self.0[self.0.len() - 1]
    }

    /// The path one level deeper, at version 0 of the child.
    pub fn step_into(&self) -> (r: BacktraceVersionsPath)
        ensures
            r@ == stepped_into(self@),
    {
        let mut ret = self.clone();
        ret.0.push(0);
        ret
    }

    /// The same path with the current level at `version`.
    pub fn change(&self, version: Version) -> (r: BacktraceVersionsPath)
        requires
            self@.len() > 0,
        ensures
            r@ == changed(self@, version),
    {
        let mut ret = self.clone();
        let n = ret.0.len();
        ret.0.set(n - 1, version);
        ret
    }

    /// The textual form, as it stands in a URL.
    pub fn to_string(&self) -> (r: String)
        ensures
            r@ == path_text(self@),
    {
        let mut out = String::new();
        for i in 0..self.0.len()
            invariant
                out@ == path_text(self@.take(i as int)),
        {
            proof {
                assert(self@.take(i as int + 1).drop_last() =~= self@.take(i as int));
                reveal_strlit("_");
            }
            if i > 0 {
                out.append("_");
            } else {
                proof {
                    assert(out@ =~= seq![]);
                }
            }
            append_decimal(&mut out, self.0[i] as u64);
            proof {
                if i == 0 {
                    assert(out@ =~= path_text(self@.take(1)));
                } else {
                    assert(out@ =~= path_text(self@.take(i as int + 1)));
                }
            }
        }
        proof {
            assert(self@.take(self@.len() as int) =~= self@);
        }
        out
    }

    /// Reads the textual form; fails when any piece is not a version.
    pub fn from_str(input: &str) -> (r: Result<BacktraceVersionsPath, ()>)
        ensures
            match r {
                Ok(p) => parse_path(input@) == Some(p@),
                Err(_) => parse_path(input@) is None,
            },
    {
        let pieces = split_text(input, BACKTRACE_VERSIONS_SEPARATOR);
        let ghost pv = views(pieces@);
        let mut versions: Vec<Version> = Vec::new();
        for i in 0..pieces.len()
            invariant
                pv == views(pieces@),
                pv == split_on(input@, BACKTRACE_VERSIONS_SEPARATOR),
                versions@.len() == i,
                forall|j: int| 0 <= j < i ==> parse_u32_spec(#[trigger] pv[j]) == Some(versions@[j]),
        {
            match parse_u32(pieces[i].as_str()) {
                Some(v) => {
                    versions.push(v);
                },
                None => {
                    proof {
                        assert(pv[i as int] == pieces@[i as int]@);
                    }
                    return Err(());
                },
            }
        }
        proof {
            assert(versions@ =~= pv.map_values(|x: Seq<char>| parse_u32_spec(x)->Some_0));
        }
        Ok(BacktraceVersionsPath(versions))
    }

    /// The path one level up, or `None` when this is the top level.
    pub fn step_out(&self) -> (r: Option<BacktraceVersionsPath>)
        ensures
            match r {
                None => stepped_out(self@) is None,
                Some(p) => stepped_out(self@) == Some(p@),
            },
    {
        let mut ret = self.clone();
        ret.0.pop();
        if ret.0.len() == 0 {
            None
        } else {
            proof {
                assert(ret@ =~= self@.drop_last());
            }
            Some(ret)
        }
    }
}

/// Stepping into a child and back out again returns to the same path.
pub proof fn lemma_step_into_then_out(p: Seq<Version>)
    requires
        p.len() >= 1,
    ensures
        stepped_out(stepped_into(p)) == Some(p),
{
    assert(stepped_into(p).drop_last() =~= p);
}

/// A path of a single level has nothing to step out to.
pub proof fn lemma_step_out_of_top(v: Version)
    ensures
        stepped_out(seq![v]) is None,
{
}


proof fn lemma_parse_decimal(v: Version)
    ensures
        parse_u32_spec(decimal(v as nat)) == Some(v),
{
    lemma_decimal_parses(v as nat);
    let d = decimal(v as nat);
    assert(is_digit(d[0]));
    assert(unsigned_part(d) == d);
}

proof fn lemma_no_separator(v: Version)
    ensures
        forall|i: int|
            0 <= i < decimal(v as nat).len() ==> #[trigger] decimal(v as nat)[i]
                != BACKTRACE_VERSIONS_SEPARATOR,
{
    lemma_decimal_parses(v as nat);
    assert forall|i: int| 0 <= i < decimal(v as nat).len() implies #[trigger] decimal(v as nat)[i]
        != BACKTRACE_VERSIONS_SEPARATOR by {
        assert(is_digit(decimal(v as nat)[i]));
    }
}

proof fn lemma_split_path(p: Seq<Version>)
    requires
        p.len() >= 1,
    ensures
        split_on(path_text(p), BACKTRACE_VERSIONS_SEPARATOR) == p.map_values(
            |v: Version| decimal(v as nat),
        ),
    decreases p.len(),
{
    let sep = BACKTRACE_VERSIONS_SEPARATOR;
    let last = decimal(p.last() as nat);
    lemma_no_separator(p.last());
    if p.len() == 1 {
        let e = Seq::<char>::empty();
        lemma_split_extend(e, last, sep);
        assert(e + last =~= path_text(p));
        assert(split_on(e, sep) == seq![e]);
        assert(split_on(path_text(p), sep) =~= p.map_values(|v: Version| decimal(v as nat)));
    } else {
        let p0 = p.drop_last();
        lemma_split_path(p0);
        let x = path_text(p0);
        reveal_strlit("_");
        assert(x.push(sep).drop_last() =~= x);
        assert(split_on(x.push(sep), sep) == split_on(x, sep).push(seq![]));
        lemma_split_extend(x.push(sep), last, sep);
        assert(x.push(sep) + last =~= path_text(p));
        assert(seq![] + last =~= last);
        assert(split_on(path_text(p), sep) =~= p.map_values(|v: Version| decimal(v as nat)));
    }
}

/// A path written out as text reads back as the same path.
pub proof fn lemma_path_text_round_trip(p: Seq<Version>)
    requires
        p.len() >= 1,
    ensures
        parse_path(path_text(p)) == Some(p),
{
    lemma_split_path(p);
    let pieces = split_on(path_text(p), BACKTRACE_VERSIONS_SEPARATOR);
    assert forall|i: int| 0 <= i < pieces.len() implies #[trigger] parse_u32_spec(pieces[i])
        == Some(p[i]) by {
        lemma_parse_decimal(p[i]);
    }
    assert(pieces.map_values(|x: Seq<char>| parse_u32_spec(x)->Some_0) =~= p);
}

} // verus!
