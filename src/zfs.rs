//! What the storage tool is asked and what its answers mean.
use crate::text::{
    find_from, first_index, is_unsigned_text, lines_of, parse_usize, split_lines, string_of,
    digits_value, unsigned_digits, copy_range,
};
use vstd::prelude::*;

verus! {

/// A run of marked snapshots, named by its first and last member.
#[derive(PartialEq, Debug)]
pub enum SnapRange<'a> {
    Single(&'a str),
    Range(&'a str, &'a str),
}

/// The value a `SnapRange` stands for.
pub enum RangeView {
    Single(Seq<char>),
    Range(Seq<char>, Seq<char>),
}

impl<'a> View for SnapRange<'a> {
    type V = RangeView;

    open spec fn view(&self) -> RangeView {
        match self {
            SnapRange::Single(s) => RangeView::Single(s@),
            SnapRange::Range(from, to) => RangeView::Range(from@, to@),
        }
    }
}

pub open spec fn range_views<'a>(rs: Seq<SnapRange<'a>>) -> Seq<RangeView> {
    Seq::new(rs.len(), |i: int| rs[i]@)
}

/// The selector token of one range: its name, or `first%last`.
pub open spec fn token(r: RangeView) -> Seq<char> {
    match r {
        RangeView::Single(s) => s,
        RangeView::Range(from, to) => from + seq!['%'] + to,
    }
}

/// The tokens of `rs` joined by commas.
pub open spec fn selector(rs: Seq<RangeView>) -> Seq<char>
    decreases rs.len(),
{
    if rs.len() == 0 {
        seq![]
    } else if rs.len() == 1 {
        token(rs[0])
    } else {
        selector(rs.drop_last()) + seq![','] + token(rs.last())
    }
}

/// Renders ranges in the tool's selector syntax.
pub fn snap_range_commandline(ranges: &[SnapRange]) -> (r: String)
    ensures
        r@ == selector(range_views(ranges@)),
{
    let mut out = String::new();
    let mut i: usize = 0;
    proof {
        reveal_strlit(",");
        reveal_strlit("%");
        assert(range_views(ranges@.subrange(0, 0)) =~= Seq::<RangeView>::empty());
    }
    while i < ranges.len()
        invariant
            i <= ranges@.len(),
            out@ == selector(range_views(ranges@.subrange(0, i as int))),
        decreases ranges@.len() - i,
    {
        let ghost before = out@;
        if i > 0 {
            out.append(",");
        }
        match &ranges[i] {
            SnapRange::Single(s) => {
                out.append(s);
            },
            SnapRange::Range(from, to) => {
                out.append(from);
                out.append("%");
                out.append(to);
            },
        }
        proof {
            reveal_strlit(",");
            reveal_strlit("%");
            let vs = range_views(ranges@.subrange(0, i + 1));
            assert(vs.drop_last() =~= range_views(ranges@.subrange(0, i as int)));
            assert(vs.last() == ranges@[i as int]@);
            if i == 0 {
                assert(out@ =~= token(vs[0]));
            } else {
                assert(out@ =~= before + seq![','] + token(vs.last()));
            }
        }
        i = i + 1;
    }
    proof {
        assert(ranges@.subrange(0, ranges@.len() as int) =~= ranges@);
    }
    out
}

/// `dataset@selector`: what a destroy of the ranges names.
pub open spec fn destroy_spec(dataset: Seq<char>, rs: Seq<RangeView>) -> Seq<char> {
    dataset + seq!['@'] + selector(rs)
}

/// The target handed to the tool's dry-run destroy for `ranges` of `dataset`.
pub fn destroy_target(dataset: &str, ranges: &[SnapRange]) -> (r: String)
    ensures
        r@ == destroy_spec(dataset@, range_views(ranges@)),
{
    let sel = snap_range_commandline(ranges);
    let mut out = dataset.to_owned();
    out.append("@");
    out.append(sel.as_str());
    proof {
        reveal_strlit("@");
    }
    out
}

/// Why a call of the tool gave no usable answer.
#[derive(Debug)]
pub enum ZfsError {
    /// The listing ended with a failure; what the tool wrote on its error stream.
    ListFailed(String),
    /// The dry-run destroy ended with a failure; what the tool wrote on its error stream.
    DryRunFailed(String),
    /// A listing line without a tab.
    UnexpectedLine(String),
    /// A listed name that does not begin with `<dataset>@`.
    WrongDataset(String),
    /// The dry-run output, which holds no `reclaim` line.
    IncompleteOutput(String),
    /// The byte count of a `reclaim` line that is no unsigned integer.
    MalformedBytes(String),
}

/// What a dry-run destroy reports: the snapshots it would remove and the space freed.
pub struct ReclaimResult {
    pub destroys: Vec<String>,
    pub bytes: usize,
}

impl Default for ReclaimResult {
    fn default() -> (r: ReclaimResult)
        ensures
            r.destroys@.len() == 0,
            r.bytes == 0,
    {
        ReclaimResult { destroys: Vec::new(), bytes: 0 }
    }
}

pub open spec fn strings_view(v: Seq<String>) -> Seq<Seq<char>> {
    Seq::new(v.len(), |i: int| v[i]@)
}

/// `<dataset>@`, which begins every listed name.
pub open spec fn name_prefix(dataset: Seq<char>) -> Seq<char> {
    dataset + seq!['@']
}

pub open spec fn has_tab(line: Seq<char>) -> bool {
    first_index(line, '\t') < line.len()
}

/// The text before the first tab of a line.
pub open spec fn first_field(line: Seq<char>) -> Seq<char> {
    line.subrange(0, first_index(line, '\t'))
}

pub open spec fn listing_line_ok(dataset: Seq<char>, line: Seq<char>) -> bool {
    has_tab(line) && name_prefix(dataset).is_prefix_of(first_field(line))
}

/// The snapshot a listing line names, without its `<dataset>@`.
pub open spec fn snapshot_name(dataset: Seq<char>, line: Seq<char>) -> Seq<char> {
    first_field(line).subrange(name_prefix(dataset).len() as int, first_field(line).len() as int)
}

/// `e` is the error that a faulty listing line gives.
pub open spec fn listing_fault(dataset: Seq<char>, line: Seq<char>, e: ZfsError) -> bool {
    match e {
        ZfsError::UnexpectedLine(l) => !has_tab(line) && l@ == line,
        ZfsError::WrongDataset(f) => has_tab(line) && !name_prefix(dataset).is_prefix_of(
            first_field(line),
        ) && f@ == first_field(line),
        _ => false,
    }
}

/// Whether `p` begins `v`.
pub fn starts_with(v: &Vec<char>, p: &Vec<char>) -> (r: bool)
    ensures
        r == p@.is_prefix_of(v@),
{
    if p.len() > v.len() {
        return false;
    }
    let mut i: usize = 0;
    while i < p.len()
        invariant
            i <= p@.len() <= v@.len(),
            forall|j: int| 0 <= j < i ==> p@[j] == v@[j],
        decreases p@.len() - i,
    {
        if p[i] != v[i] {
            return false;
        }
        i = i + 1;
    }
    proof {
        assert(p@ =~= v@.subrange(0, p@.len() as int));
    }
    true
}

/// Reads the snapshot names of `dataset` out of the tool's tab-separated listing.
/// The first faulty line, if any, decides the error.
pub fn snapshots_from_output(dataset: &str, stdout: &str) -> (r: Result<Vec<String>, ZfsError>)
    ensures
        match r {
            Ok(names) => {
                &&& forall|i: int|
                    0 <= i < lines_of(stdout@).len() ==> listing_line_ok(
                        dataset@,
                        #[trigger] lines_of(stdout@)[i],
                    )
                &&& strings_view(names@) == Seq::new(
                    lines_of(stdout@).len(),
                    |i: int| snapshot_name(dataset@, lines_of(stdout@)[i]),
                )
            },
            Err(e) => exists|i: int|
                0 <= i < lines_of(stdout@).len() && (forall|j: int|
                    0 <= j < i ==> listing_line_ok(dataset@, #[trigger] lines_of(stdout@)[j]))
                    && listing_fault(dataset@, lines_of(stdout@)[i], e),
        },
{
    let lines = split_lines(stdout);
    let ghost ls = lines_of(stdout@);
    let mut prefix = crate::text::chars_of(dataset);
    prefix.push('@');
    let mut names: Vec<String> = Vec::new();
    let mut i: usize = 0;
    while i < lines.len()
        invariant
            lines@.len() == ls.len(),
            forall|k: int| 0 <= k < lines@.len() ==> #[trigger] lines@[k]@ == ls[k],
            ls == lines_of(stdout@),
            prefix@ == name_prefix(dataset@),
            i <= lines@.len(),
            forall|j: int| 0 <= j < i ==> listing_line_ok(dataset@, #[trigger] ls[j]),
            strings_view(names@) == Seq::new(i as nat, |j: int| snapshot_name(dataset@, ls[j])),
        decreases lines@.len() - i,
    {
        let line = &lines[i];
        let tab = find_from(line, 0, '\t');
        proof {
            assert(line@.subrange(0, line@.len() as int) =~= line@);
            assert(line@ == ls[i as int]);
        }
        if tab == line.len() {
            let e = ZfsError::UnexpectedLine(string_of(line));
            proof {
                assert(listing_fault(dataset@, ls[i as int], e));
            }
            return Err(e);
        }
        let field = copy_range(line, 0, tab);
        if !starts_with(&field, &prefix) {
            let e = ZfsError::WrongDataset(string_of(&field));
            proof {
                assert(listing_fault(dataset@, ls[i as int], e));
            }
            return Err(e);
        }
        let bare = copy_range(&field, prefix.len(), field.len());
        let ghost old_names = names@;
        names.push(string_of(&bare));
        proof {
            assert(strings_view(names@) =~= strings_view(old_names).push(bare@));
            assert(strings_view(names@) =~= Seq::new(
                (i + 1) as nat,
                |j: int| snapshot_name(dataset@, ls[j]),
            ));
        }
        i = i + 1;
    }
    Ok(names)
}

pub open spec fn reclaim_tag() -> Seq<char> {
    seq!['r', 'e', 'c', 'l', 'a', 'i', 'm', '\t']
}

pub open spec fn destroy_tag() -> Seq<char> {
    seq!['d', 'e', 's', 't', 'r', 'o', 'y', '\t']
}

pub open spec fn is_reclaim_line(l: Seq<char>) -> bool {
    reclaim_tag().is_prefix_of(l)
}

pub open spec fn is_destroy_line(l: Seq<char>) -> bool {
    !is_reclaim_line(l) && destroy_tag().is_prefix_of(l)
}

/// What follows the tag of a `reclaim` or `destroy` line.
pub open spec fn tag_value(l: Seq<char>) -> Seq<char> {
    l.subrange(8, l.len() as int)
}

/// The names of the `destroy` lines among `ls`, in order.
pub open spec fn destroyed(ls: Seq<Seq<char>>) -> Seq<Seq<char>>
    decreases ls.len(),
{
    if ls.len() == 0 {
        seq![]
    } else if is_destroy_line(ls.last()) {
        destroyed(ls.drop_last()).push(tag_value(ls.last()))
    } else {
        destroyed(ls.drop_last())
    }
}

/// Line `k` is the first `reclaim` line of `ls`.
pub open spec fn first_reclaim_at(ls: Seq<Seq<char>>, k: int) -> bool {
    &&& 0 <= k < ls.len()
    &&& is_reclaim_line(ls[k])
    &&& forall|j: int| 0 <= j < k ==> !is_reclaim_line(#[trigger] ls[j])
}

/// A byte count the tool may give: an unsigned integer that fits in `usize`.
pub open spec fn byte_count_ok(t: Seq<char>) -> bool {
    is_unsigned_text(t) && digits_value(unsigned_digits(t)) <= usize::MAX
}

/// Reads the dry-run destroy output: the `destroy` lines before the first
/// `reclaim` line, and that line's byte count; later lines are not read.
pub fn reclaim_from_output(stdout: &str) -> (r: Result<ReclaimResult, ZfsError>)
    ensures
        match r {
            Ok(res) => exists|k: int|
                first_reclaim_at(lines_of(stdout@), k) && byte_count_ok(
                    tag_value(lines_of(stdout@)[k]),
                ) && res.bytes == digits_value(unsigned_digits(tag_value(lines_of(stdout@)[k])))
                    && strings_view(res.destroys@) == destroyed(lines_of(stdout@).subrange(0, k)),
            Err(ZfsError::IncompleteOutput(o)) => o@ == stdout@ && forall|k: int|
                0 <= k < lines_of(stdout@).len() ==> !is_reclaim_line(
                    #[trigger] lines_of(stdout@)[k],
                ),
            Err(ZfsError::MalformedBytes(f)) => exists|k: int|
                first_reclaim_at(lines_of(stdout@), k) && !byte_count_ok(
                    tag_value(lines_of(stdout@)[k]),
                ) && f@ == tag_value(lines_of(stdout@)[k]),
            Err(_) => false,
        },
{
    let lines = split_lines(stdout);
    let ghost ls = lines_of(stdout@);
    let reclaim = crate::text::chars_of("reclaim\t");
    let destroy = crate::text::chars_of("destroy\t");
    proof {
        reveal_strlit("reclaim\t");
        reveal_strlit("destroy\t");
        assert(reclaim@ =~= reclaim_tag());
        assert(destroy@ =~= destroy_tag());
    }
    let mut destroys: Vec<String> = Vec::new();
    let mut i: usize = 0;
    while i < lines.len()
        invariant
            lines@.len() == ls.len(),
            forall|k: int| 0 <= k < lines@.len() ==> #[trigger] lines@[k]@ == ls[k],
            ls == lines_of(stdout@),
            reclaim@ == reclaim_tag(),
            destroy@ == destroy_tag(),
            i <= lines@.len(),
            forall|j: int| 0 <= j < i ==> !is_reclaim_line(#[trigger] ls[j]),
            strings_view(destroys@) == destroyed(ls.subrange(0, i as int)),
        decreases lines@.len() - i,
    {
        let line = &lines[i];
        proof {
            assert(line@ == ls[i as int]);
            assert(ls.subrange(0, i + 1).drop_last() =~= ls.subrange(0, i as int));
        }
        if starts_with(line, &reclaim) {
            let value = copy_range(line, 8, line.len());
            match parse_usize(&value) {
                Some(bytes) => {
                    let res = ReclaimResult { destroys, bytes };
                    proof {
                        assert(first_reclaim_at(ls, i as int));
                    }
                    return Ok(res);
                },
                None => {
                    let e = ZfsError::MalformedBytes(string_of(&value));
                    proof {
                        assert(first_reclaim_at(ls, i as int));
                    }
                    return Err(e);
                },
            }
        } else if starts_with(line, &destroy) {
            let name = copy_range(line, 8, line.len());
            let ghost before = destroys@;
            destroys.push(string_of(&name));
            proof {
                assert(strings_view(destroys@) =~= strings_view(before).push(name@));
            }
        }
        i = i + 1;
    }
    Err(ZfsError::IncompleteOutput(stdout.to_owned()))
}

} // verus!
