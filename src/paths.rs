use vstd::prelude::*;
use vstd::std_specs::iter::IteratorSpec;
use crate::error::BackupError;

verus! {

/// One component of a filesystem path, as the host platform splits it.
#[derive(Clone, Debug, PartialEq, Eq)]
pub enum PathPart {
    /// A platform prefix such as a drive letter.
    Prefix(String),
    RootDir,
    CurDir,
    ParentDir,
    Normal(String),
}

/// The mathematical value of a `PathPart`.
pub enum Part {
    Prefix(Seq<char>),
    RootDir,
    CurDir,
    ParentDir,
    Normal(Seq<char>),
}

impl View for PathPart {
    type V = Part;

    open spec fn view(&self) -> Part {
        match self {
            PathPart::Prefix(s) => Part::Prefix(s@),
            PathPart::RootDir => Part::RootDir,
            PathPart::CurDir => Part::CurDir,
            PathPart::ParentDir => Part::ParentDir,
            PathPart::Normal(s) => Part::Normal(s@),
        }
    }
}

pub open spec fn parts_view(v: Seq<PathPart>) -> Seq<Part> {
    v.map_values(|p: PathPart| p@)
}

pub open spec fn chars_view(v: Seq<Vec<char>>) -> Seq<Seq<char>> {
    v.map_values(|c: Vec<char>| c@)
}

/// The names of the normal components of a path, in order.
pub open spec fn normal_names(ps: Seq<Part>) -> Seq<Seq<char>>
    decreases ps.len(),
{
    if ps.len() == 0 {
        seq![]
    } else {
        let init = normal_names(ps.drop_last());
        match ps.last() {
            Part::Normal(n) => init.push(n),
            _ => init,
        }
    }
}

/// The segments joined with a single `/` between neighbours.
pub open spec fn join_slash(segs: Seq<Seq<char>>) -> Seq<char>
    decreases segs.len(),
{
    if segs.len() == 0 {
        seq![]
    } else if segs.len() == 1 {
        segs[0]
    } else {
        join_slash(segs.drop_last()) + seq!['/'] + segs.last()
    }
}

pub open spec fn is_sep(c: char) -> bool {
    c == '/' || c == '\\'
}

/// Reading `s` from the left: the non-empty segments already closed by a
/// separator, and the segment still open.
pub open spec fn scan(s: Seq<char>) -> (Seq<Seq<char>>, Seq<char>)
    decreases s.len(),
{
    if s.len() == 0 {
        (seq![], seq![])
    } else {
        let (done, cur) = scan(s.drop_last());
        let c = s.last();
        if is_sep(c) {
            if cur.len() > 0 {
                (done.push(cur), seq![])
            } else {
                (done, seq![])
            }
        } else {
            (done, cur.push(c))
        }
    }
}

/// The non-empty pieces of `s` between `/` and `\` separators.
pub open spec fn segments(s: Seq<char>) -> Seq<Seq<char>> {
    let (done, cur) = scan(s);
    if cur.len() > 0 {
        done.push(cur)
    } else {
        done
    }
}

/// The characters of `s`, in order.
pub(crate) fn chars_of(s: &str) -> (r: Vec<char>)
    ensures
        r@ == s@,
{
    broadcast use vstd::string::axiom_spec_iter, vstd::string::next_postcondition;

    let mut it = s.chars();
    let mut out: Vec<char> = Vec::new();
    loop
        invariant
            out@ + it.remaining() == s@,
            it.obeys_prophetic_iter_laws(),
            it.decrease() is Some,
        ensures
            out@ == s@,
        decreases it.decrease()->0,
    {
        let ghost before = it.remaining();
        match it.next() {
            Some(c) => {
                out.push(c);
                assert(out@ + it.remaining() =~= s@) by {
                    assert(before =~= seq![c] + it.remaining());
                }
            },
            None => {
                assert(out@ =~= s@);
                break;
            },
        }
    }
    out
}

/// A name that a host path component has: non-empty, without `/`, and
/// neither `.` nor `..`.
pub open spec fn component_name(n: Seq<char>) -> bool {
    &&& n.len() > 0
    &&& forall|k: int| 0 <= k < n.len() ==> #[trigger] n[k] != '/'
    &&& n != seq!['.']
    &&& n != seq!['.', '.']
}

pub open spec fn component_names(ns: Seq<Seq<char>>) -> bool {
    forall|k: int| 0 <= k < ns.len() ==> component_name(#[trigger] ns[k])
}

/// Every normal component of the path has a host component's name.
pub open spec fn well_named(ps: Seq<Part>) -> bool {
    forall|k: int|
        0 <= k < ps.len() ==> match #[trigger] ps[k] {
            Part::Normal(n) => component_name(n),
            _ => true,
        }
}

/// Archive form: no leading, trailing or doubled `/`.
pub open spec fn slash_form(s: Seq<char>) -> bool {
    &&& s.len() > 0 ==> s[0] != '/' && s.last() != '/'
    &&& forall|k: int| 0 <= k < s.len() - 1 ==> !(#[trigger] s[k] == '/' && s[k + 1] == '/')
}

pub proof fn lemma_normal_names_named(ps: Seq<Part>)
    requires
        well_named(ps),
    ensures
        component_names(normal_names(ps)),
    decreases ps.len(),
{
    if ps.len() > 0 {
        let init = ps.drop_last();
        assert forall|k: int| 0 <= k < init.len() implies match #[trigger] init[k] {
            Part::Normal(n) => component_name(n),
            _ => true,
        } by {
            assert(init[k] == ps[k]);
        }
        lemma_normal_names_named(init);
        let names = normal_names(init);
        assert(match ps[ps.len() - 1] {
            Part::Normal(n) => component_name(n),
            _ => true,
        });
        match ps.last() {
            Part::Normal(n) => {
                assert forall|k: int| 0 <= k < names.push(n).len() implies component_name(
                    #[trigger] names.push(n)[k],
                ) by {
                    if k < names.len() {
                        assert(names.push(n)[k] == names[k]);
                    }
                }
            },
            _ => {},
        }
    }
}

pub proof fn lemma_join_form(segs: Seq<Seq<char>>)
    requires
        component_names(segs),
    ensures
        slash_form(join_slash(segs)),
        join_slash(segs).len() == 0 <==> segs.len() == 0,
    decreases segs.len(),
{
    if segs.len() == 1 {
        assert(component_name(segs[0]));
        let w = segs[0];
        assert(w[0] != '/');
        assert(w[w.len() - 1] != '/');
    } else if segs.len() > 1 {
        let init = segs.drop_last();
        assert forall|k: int| 0 <= k < init.len() implies component_name(#[trigger] init[k]) by {
            assert(init[k] == segs[k]);
        }
        lemma_join_form(init);
        let j = join_slash(init);
        let l = segs.last();
        assert(component_name(segs[segs.len() - 1]));
        let all = j + seq!['/'] + l;
        assert(all[0] == j[0]);
        assert(all.last() == l[l.len() - 1]);
        assert(l[l.len() - 1] != '/');
        assert(l[0] != '/');
        assert forall|k: int| 0 <= k < all.len() - 1 implies !(#[trigger] all[k] == '/' && all[k + 1]
            == '/') by {
            if k < j.len() - 1 {
                assert(all[k] == j[k] && all[k + 1] == j[k + 1]);
            } else if k == j.len() - 1 {
                assert(all[k] == j.last());
            } else if k == j.len() {
                assert(all[k + 1] == l[0]);
            } else {
                assert(all[k] == l[k - j.len() - 1]);
            }
        }
    }
}

/// Relies on `String: FromIterator<char>`: the string of exactly these characters.
#[verifier::external_body]
pub(crate) fn string_of(cs: &Vec<char>) -> (r: String)
    ensures
        r@ == cs@,
{
    cs.iter().collect()
}

proof fn lemma_join_push(segs: Seq<Seq<char>>, n: Seq<char>)
    ensures
        join_slash(segs.push(n)) == (if segs.len() == 0 {
            n
        } else {
            join_slash(segs) + seq!['/'] + n
        }),
{
    assert(segs.push(n).drop_last() =~= segs);
}

/// The archive form of a path: its normal components joined by `/`.
/// Root, prefix, `.` and `..` components are dropped.
pub fn path_to_zip_string(path: &Vec<PathPart>) -> (r: String)
    ensures
        r@ == join_slash(normal_names(parts_view(path@))),
        well_named(parts_view(path@)) ==> component_names(normal_names(parts_view(path@)))
            && slash_form(r@) && (r@.len() == 0 <==> normal_names(parts_view(path@)).len() == 0),
{
    proof {
        if well_named(parts_view(path@)) {
            lemma_normal_names_named(parts_view(path@));
            lemma_join_form(normal_names(parts_view(path@)));
        }
    }
    let ghost ps = parts_view(path@);
    let mut out: Vec<char> = Vec::new();
    let mut any = false;
    let mut i: usize = 0;
    while i < path.len()
        invariant
            i <= path.len(),
            ps == parts_view(path@),
            any == (normal_names(ps.take(i as int)).len() > 0),
            out@ == join_slash(normal_names(ps.take(i as int))),
        decreases path.len() - i,
    {
        let ghost names = normal_names(ps.take(i as int));
        assert(ps.take(i as int + 1).drop_last() =~= ps.take(i as int));
        match &path[i] {
            PathPart::Normal(n) => {
                let mut cs = chars_of(n.as_str());
                if any {
                    out.push('/');
                }
                out.append(&mut cs);
                proof {
                    lemma_join_push(names, n@);
                }
                any = true;
            },
            _ => {},
        }
        i = i + 1;
    }
    assert(ps.take(path.len() as int) =~= ps);
    string_of(&out)
}


/// The non-empty pieces of `cs` between `/` and `\` separators.
pub(crate) fn split_segments(cs: &Vec<char>) -> (r: Vec<Vec<char>>)
    ensures
        chars_view(r@) == segments(cs@),
{
    let mut done: Vec<Vec<char>> = Vec::new();
    let mut cur: Vec<char> = Vec::new();
    let mut i: usize = 0;
    while i < cs.len()
        invariant
            i <= cs.len(),
            chars_view(done@) == scan(cs@.take(i as int)).0,
            cur@ == scan(cs@.take(i as int)).1,
        decreases cs.len() - i,
    {
        assert(cs@.take(i as int + 1).drop_last() =~= cs@.take(i as int));
        let c = cs[i];
        if c == '/' || c == '\\' {
            if cur.len() > 0 {
                let ghost d = done@;
                done.push(cur);
                assert(chars_view(done@) =~= chars_view(d).push(cur@));
                cur = Vec::new();
            } else {
                cur = Vec::new();
            }
        } else {
            cur.push(c);
        }
        i = i + 1;
    }
    assert(cs@.take(cs.len() as int) =~= cs@);
    if cur.len() > 0 {
        let ghost d = done@;
        done.push(cur);
        assert(chars_view(done@) =~= chars_view(d).push(cur@));
    }
    done
}

pub open spec fn strings_view(v: Seq<String>) -> Seq<Seq<char>> {
    v.map_values(|s: String| s@)
}

/// The non-empty pieces of `s` between `/` and `\` separators, as strings.
pub fn segment_strings(s: &str) -> (r: Vec<String>)
    ensures
        strings_view(r@) == segments(s@),
{
    let cs = chars_of(s);
    let segs = split_segments(&cs);
    let mut out: Vec<String> = Vec::new();
    let mut i: usize = 0;
    while i < segs.len()
        invariant
            i <= segs.len(),
            chars_view(segs@) == segments(s@),
            strings_view(out@) == chars_view(segs@).take(i as int),
        decreases segs.len() - i,
    {
        let ghost before = strings_view(out@);
        out.push(string_of(&segs[i]));
        assert(strings_view(out@) =~= before.push(segs@[i as int]@));
        assert(chars_view(segs@).take(i as int + 1) =~= chars_view(segs@).take(i as int).push(
            segs@[i as int]@,
        ));
        i = i + 1;
    }
    assert(chars_view(segs@).take(segs.len() as int) =~= chars_view(segs@));
    out
}

/// The segments joined with `/`.
pub(crate) fn join_segments(segs: &Vec<Vec<char>>) -> (r: Vec<char>)
    ensures
        r@ == join_slash(chars_view(segs@)),
{
    let mut out: Vec<char> = Vec::new();
    let mut i: usize = 0;
    while i < segs.len()
        invariant
            i <= segs.len(),
            out@ == join_slash(chars_view(segs@).take(i as int)),
        decreases segs.len() - i,
    {
        let ghost prev = chars_view(segs@).take(i as int);
        assert(chars_view(segs@).take(i as int + 1) =~= prev.push(segs@[i as int]@));
        proof {
            lemma_join_push(prev, segs@[i as int]@);
        }
        if i > 0 {
            out.push('/');
        }
        let mut piece = segs[i].clone();
        out.append(&mut piece);
        i = i + 1;
    }
    assert(chars_view(segs@).take(segs.len() as int) =~= chars_view(segs@));
    out
}

/// A user's name for a place in an archive in archive form: split on `/`
/// and `\`, empty segments dropped, the rest joined with `/`.
pub fn normalize_zip_path(value: &str) -> (r: String)
    ensures
        r@ == join_slash(segments(value@)),
{
    let cs = chars_of(value);
    let segs = split_segments(&cs);
    let joined = join_segments(&segs);
    string_of(&joined)
}

pub open spec fn is_parent_segment(s: Seq<char>) -> bool {
    s == seq!['.', '.']
}

/// A segment that a platform may read as a drive prefix, such as `C:`.
pub open spec fn is_drive_segment(s: Seq<char>) -> bool {
    s.len() >= 2 && s[1] == ':'
}

/// A segment that must never be placed below a destination: `..`, which
/// climbs out, or, where the host reads drive prefixes (`windows`), a drive
/// prefix, which replaces the whole path.
pub open spec fn is_unsafe_segment(s: Seq<char>, windows: bool) -> bool {
    is_parent_segment(s) || (windows && is_drive_segment(s))
}

/// A selector names something only if it has a segment and no `..` segment.
pub open spec fn selector_ok(s: Seq<char>) -> bool {
    &&& segments(s).len() > 0
    &&& forall|i: int| 0 <= i < segments(s).len() ==> !is_parent_segment(#[trigger] segments(s)[i])
}

/// Normalizes a restore selector and rejects one that is empty or steps
/// upward with a `..` segment.
pub fn normalize_selector(selector: &str) -> (r: Result<String, BackupError>)
    ensures
        selector_ok(selector@) ==> r == Ok::<String, BackupError>(r->Ok_0) && r->Ok_0@ == join_slash(
            segments(selector@),
        ),
        !selector_ok(selector@) ==> r == Err::<String, BackupError>(BackupError::InvalidSelector),
{
    let cs = chars_of(selector);
    let segs = split_segments(&cs);
    if segs.len() == 0 {
        return Err(BackupError::InvalidSelector);
    }
    let mut i: usize = 0;
    while i < segs.len()
        invariant
            i <= segs.len(),
            chars_view(segs@) == segments(selector@),
            forall|j: int| 0 <= j < i ==> !is_parent_segment(#[trigger] segments(selector@)[j]),
        decreases segs.len() - i,
    {
        let seg = &segs[i];
        assert(segments(selector@)[i as int] == seg@);
        if seg.len() == 2 && seg[0] == '.' && seg[1] == '.' {
            assert(seg@ =~= seq!['.', '.']);
            return Err(BackupError::InvalidSelector);
        }
        i = i + 1;
    }
    let joined = join_segments(&segs);
    Ok(string_of(&joined))
}

/// The name under which a source directory's tree is archived: its last
/// normal component.
pub fn derive_root_name(path: &Vec<PathPart>) -> (r: Result<String, BackupError>)
    ensures
        normal_names(parts_view(path@)).len() > 0 ==> r == Ok::<String, BackupError>(r->Ok_0)
            && r->Ok_0@ == normal_names(parts_view(path@)).last(),
        normal_names(parts_view(path@)).len() == 0 ==> r == Err::<String, BackupError>(
            BackupError::UnnameableRoot,
        ),
        well_named(parts_view(path@)) && r is Ok ==> component_name(r->Ok_0@),
{
    proof {
        if well_named(parts_view(path@)) {
            lemma_normal_names_named(parts_view(path@));
            let ns = normal_names(parts_view(path@));
            if ns.len() > 0 {
                assert(component_name(ns[ns.len() - 1]));
            }
        }
    }
    let ghost ps = parts_view(path@);
    let mut found: Option<String> = None;
    let mut i: usize = 0;
    while i < path.len()
        invariant
            i <= path.len(),
            ps == parts_view(path@),
            (found is Some) == (normal_names(ps.take(i as int)).len() > 0),
            found is Some ==> found->Some_0@ == normal_names(ps.take(i as int)).last(),
        decreases path.len() - i,
    {
        assert(ps.take(i as int + 1).drop_last() =~= ps.take(i as int));
        match &path[i] {
            PathPart::Normal(n) => {
                found = Some(n.clone());
            },
            _ => {},
        }
        i = i + 1;
    }
    assert(ps.take(path.len() as int) =~= ps);
    match found {
        Some(n) => Ok(n),
        None => Err(BackupError::UnnameableRoot),
    }
}

} // verus!
