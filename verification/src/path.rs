//! Paths as text: segments between slashes, on every platform. Empty segments
//! and single dots do not count, except for a dot that a relative path begins
//! with.
use crate::order::{chain, coherent, compare_text, flip, int_order, text_order, usize_order, Order};
use crate::text::{
    chars, first_of, join_texts, joined_with, lemma_first_of, lemma_first_of_is, lemma_rfind, part,
    rfind, rfind_of, same, split, split_of, string, Class,
};
use vstd::prelude::*;

verus! {

/// The segments of a path that count.
pub open spec fn counted(segments: Seq<Seq<char>>) -> Seq<Seq<char>>
    decreases segments.len(),
{
    if segments.len() == 0 {
        seq![]
    } else {
        let before = counted(segments.drop_last());
        let last = segments.last();
        if last.len() == 0 || (last == "."@ && segments.len() > 1) {
            before
        } else {
            before.push(last)
        }
    }
}

/// The one spelling of a path.
pub open spec fn normal_of(path: Seq<char>) -> Seq<char> {
    (if path.len() > 0 && path[0] == '/' { "/"@ } else { ""@ }) + joined_with(
        counted(split_of(path, Class::One('/'))),
        "/"@,
    )
}

/// The directory a path is in: nothing for the root and for no path at all,
/// and the empty path for a single segment.
pub open spec fn parent_of(path: Seq<char>) -> Option<Seq<char>> {
    if path.len() == 0 || path == "/"@ {
        None
    } else {
        match rfind_of(path, "/"@) {
            None => Some(seq![]),
            Some(at) => if at == 0 {
                Some("/"@)
            } else {
                Some(path.take(at as int))
            },
        }
    }
}

/// The directory of a file, in its one spelling.
pub open spec fn dir_of(path: Seq<char>) -> Seq<char> {
    match parent_of(normal_of(path)) {
        Some(dir) => dir,
        None => seq![],
    }
}

/// What stands behind the last slash.
pub open spec fn last_of(path: Seq<char>) -> Seq<char> {
    match rfind_of(path, "/"@) {
        None => path,
        Some(at) => path.skip(at as int + 1),
    }
}

/// The last segment of a path, where that is a name.
pub open spec fn name_of(path: Seq<char>) -> Seq<char> {
    let last = last_of(normal_of(path));
    if last == "."@ || last == ".."@ {
        seq![]
    } else {
        last
    }
}

/// A path below a directory, as it is written; an absolute one stands for
/// itself.
pub open spec fn below(dir: Seq<char>, target: Seq<char>) -> Seq<char> {
    if dir.len() == 0 || (target.len() > 0 && target[0] == '/') {
        target
    } else if dir.last() == '/' {
        dir + target
    } else {
        dir + "/"@ + target
    }
}

/// A path below a directory, in its one spelling; an absolute one stands for
/// itself.
pub open spec fn join_of(dir: Seq<char>, target: Seq<char>) -> Seq<char> {
    normal_of(below(dir, target))
}

proof fn lemma_split_at(a: Seq<char>, b: Seq<char>)
    ensures
        split_of(a + seq!['/'] + b, Class::One('/')) == split_of(a, Class::One('/')) + split_of(
            b,
            Class::One('/'),
        ),
    decreases a.len(),
{
    let k = Class::One('/');
    let s = a + seq!['/'] + b;
    lemma_first_of_is(a, k);
    match first_of(a, k) {
        Some(n) => {
            assert forall|i: int| 0 <= i < n implies !k.has(#[trigger] s[i]) by {
                assert(s[i] == a[i]);
            }
            assert(s[n as int] == a[n as int]);
            lemma_first_of(s, k, n);
            let rest = a.skip(n as int + 1);
            lemma_split_at(rest, b);
            assert(s.skip(n as int + 1) =~= rest + seq!['/'] + b);
            assert(s.take(n as int) =~= a.take(n as int));
            assert(split_of(s, k) =~= split_of(a, k) + split_of(b, k));
        },
        None => {
            assert forall|i: int| 0 <= i < a.len() implies !k.has(#[trigger] s[i]) by {
                assert(s[i] == a[i]);
            }
            assert(s[a.len() as int] == '/');
            lemma_first_of(s, k, a.len());
            assert(s.take(a.len() as int) =~= a);
            assert(s.skip(a.len() as int + 1) =~= b);
            assert(split_of(s, k) =~= split_of(a, k) + split_of(b, k));
        },
    }
}

/// A segment that does not count leaves what is counted as it is, wherever it
/// stands but in front.
proof fn lemma_uncounted(a: Seq<Seq<char>>, x: Seq<char>, b: Seq<Seq<char>>)
    requires
        a.len() > 0,
        x.len() == 0 || x == "."@,
    ensures
        counted(a.push(x) + b) == counted(a + b),
    decreases b.len(),
{
    if b.len() == 0 {
        assert(a.push(x) + b =~= a.push(x));
        assert(a + b =~= a);
        assert(a.push(x).drop_last() =~= a);
    } else {
        lemma_uncounted(a, x, b.drop_last());
        assert((a.push(x) + b).drop_last() =~= a.push(x) + b.drop_last());
        assert((a + b).drop_last() =~= a + b.drop_last());
    }
}

/// A single dot between slashes, and a slash that is repeated, do not make
/// another path.
pub proof fn dots_and_repeated_slashes_do_not_count(a: Seq<char>, b: Seq<char>)
    ensures
        normal_of(a + "/./"@ + b) == normal_of(a + "/"@ + b),
        normal_of(a + "//"@ + b) == normal_of(a + "/"@ + b),
{
    reveal_strlit("/./");
    reveal_strlit("//");
    reveal_strlit("/");
    reveal_strlit(".");
    let k = Class::One('/');
    let (x, y) = (split_of(a, k), split_of(b, k));
    let slash = seq!['/'];
    let dot = seq!['.'];
    let none = Seq::<char>::empty();
    assert("."@ =~= dot);
    lemma_split_at(a, b);
    assert(a + "/"@ + b =~= a + slash + b);
    lemma_split_at(a, dot + slash + b);
    lemma_split_at(dot, b);
    lemma_first_of(dot, k, 1);
    assert(split_of(dot, k) =~= seq![dot]);
    assert(a + "/./"@ + b =~= a + slash + (dot + slash + b));
    assert(x + (seq![dot] + y) =~= x.push(dot) + y);
    lemma_uncounted(x, dot, y);
    lemma_split_at(a, none + slash + b);
    lemma_split_at(none, b);
    assert(split_of(none, k) =~= seq![none]);
    assert(a + "//"@ + b =~= a + slash + (none + slash + b));
    assert(x + (seq![none] + y) =~= x.push(none) + y);
    lemma_uncounted(x, none, y);
    if a.len() > 0 {
        assert((a + "/./"@ + b)[0] == a[0]);
        assert((a + "//"@ + b)[0] == a[0]);
        assert((a + "/"@ + b)[0] == a[0]);
    }
}

/// Whether a segment holds no slash.
pub open spec fn is_whole(segment: Seq<char>) -> bool {
    forall|i: int| 0 <= i < segment.len() ==> #[trigger] segment[i] != '/'
}

proof fn lemma_split_whole(s: Seq<char>)
    ensures
        forall|i: int|
            0 <= i < split_of(s, Class::One('/')).len() ==> is_whole(
                #[trigger] split_of(s, Class::One('/'))[i],
            ),
        is_whole(s) ==> split_of(s, Class::One('/')) == seq![s],
    decreases s.len(),
{
    let k = Class::One('/');
    lemma_first_of_is(s, k);
    match first_of(s, k) {
        Some(n) => {
            let rest = s.skip(n as int + 1);
            lemma_split_whole(rest);
            let all = split_of(s, k);
            assert forall|i: int| 0 <= i < all.len() implies is_whole(#[trigger] all[i]) by {
                if i == 0 {
                    assert(all[0] =~= s.take(n as int));
                    assert forall|j: int| 0 <= j < all[0].len() implies #[trigger] all[0][j]
                        != '/' by {
                        assert(!k.has(s[j]));
                    }
                } else {
                    assert(all[i] == split_of(rest, k)[i - 1]);
                }
            }
            assert(s[n as int] == '/');
        },
        None => {
            assert forall|j: int| 0 <= j < s.len() implies #[trigger] s[j] != '/' by {
                assert(!k.has(s[j]));
            }
        },
    }
}

/// Whether some segments are those of a path in its one spelling: none is
/// empty, and only the first may be a single dot.
pub open spec fn are_counted(segments: Seq<Seq<char>>) -> bool {
    forall|i: int|
        0 <= i < segments.len() ==> is_whole(#[trigger] segments[i]) && segments[i].len() > 0 && (i
            > 0 ==> segments[i] != "."@)
}

proof fn lemma_counted(segments: Seq<Seq<char>>)
    requires
        forall|i: int| 0 <= i < segments.len() ==> is_whole(#[trigger] segments[i]),
    ensures
        are_counted(counted(segments)),
        segments.len() > 0 && segments[0].len() > 0 ==> counted(segments).len() > 0
            && counted(segments)[0] == segments[0],
        segments.len() > 0 && segments[0].len() == 0 && counted(segments).len() > 0 ==> counted(
            segments,
        )[0] != "."@,
    decreases segments.len(),
{
    if segments.len() > 0 {
        let front = segments.drop_last();
        assert forall|i: int| 0 <= i < front.len() implies is_whole(#[trigger] front[i]) by {
            assert(front[i] == segments[i]);
        }
        lemma_counted(front);
        assert(is_whole(segments[segments.len() - 1]));
        if front.len() > 0 {
            assert(front[0] == segments[0]);
        }
    }
}

/// What is counted once counts again, in front of a root or not.
proof fn lemma_counted_again(segments: Seq<Seq<char>>, rooted: bool)
    requires
        are_counted(segments),
        rooted && segments.len() > 0 ==> segments[0] != "."@,
    ensures
        counted(segments) == segments,
        rooted ==> counted(seq![Seq::<char>::empty()] + segments) == segments,
    decreases segments.len(),
{
    let root = seq![Seq::<char>::empty()];
    if segments.len() > 0 {
        let front = segments.drop_last();
        assert(are_counted(front)) by {
            assert forall|i: int| 0 <= i < front.len() implies is_whole(#[trigger] front[i])
                && front[i].len() > 0 && (i > 0 ==> front[i] != "."@) by {
                assert(front[i] == segments[i]);
            }
        }
        lemma_counted_again(front, rooted);
        let last = segments[segments.len() - 1];
        assert(last.len() > 0);
        assert(front.push(last) =~= segments);
        assert((root + segments).drop_last() =~= root + front);
    } else {
        assert(root + segments =~= root);
        assert(root.drop_last() =~= Seq::<Seq<char>>::empty());
        assert(counted(root.drop_last()) =~= Seq::<Seq<char>>::empty());
        assert(counted(segments) =~= segments);
        assert(counted(root) =~= segments);
    }
}

proof fn lemma_split_joined(segments: Seq<Seq<char>>)
    requires
        are_counted(segments),
        segments.len() > 0,
    ensures
        split_of(joined_with(segments, "/"@), Class::One('/')) == segments,
        joined_with(segments, "/"@).len() > 0,
        joined_with(segments, "/"@)[0] != '/',
    decreases segments.len(),
{
    reveal_strlit("/");
    let last = segments[segments.len() - 1];
    lemma_split_whole(last);
    if segments.len() == 1 {
        assert(segments =~= seq![last]);
        assert(last[0] != '/');
    } else {
        let front = segments.drop_last();
        assert(are_counted(front)) by {
            assert forall|i: int| 0 <= i < front.len() implies is_whole(#[trigger] front[i])
                && front[i].len() > 0 && (i > 0 ==> front[i] != "."@) by {
                assert(front[i] == segments[i]);
            }
        }
        lemma_split_joined(front);
        let head = joined_with(front, "/"@);
        assert("/"@ =~= seq!['/']);
        lemma_split_at(head, last);
        assert(front + seq![last] =~= segments);
        assert(joined_with(segments, "/"@)[0] == head[0]);
    }
}

/// The one spelling of a path is a spelling of itself: to spell it again
/// changes nothing.
pub proof fn the_one_spelling_is_its_own(path: Seq<char>)
    ensures
        normal_of(normal_of(path)) == normal_of(path),
{
    reveal_strlit("/");
    reveal_strlit("");
    let k = Class::One('/');
    let segments = split_of(path, k);
    let kept = counted(segments);
    let normal = normal_of(path);
    lemma_split_whole(path);
    lemma_counted(segments);
    lemma_first_of_is(path, k);
    assert("/"@ =~= seq!['/']);
    let rooted = path.len() > 0 && path[0] == '/';
    if rooted {
        assert(k.has(path[0]));
        assert(segments[0] =~= Seq::<char>::empty());
        lemma_counted_again(kept, true);
        let root = seq![Seq::<char>::empty()];
        lemma_split_whole(Seq::<char>::empty());
        lemma_split_at(Seq::<char>::empty(), joined_with(kept, "/"@));
        assert(Seq::<char>::empty() + seq!['/'] + joined_with(kept, "/"@) =~= normal);
        if kept.len() > 0 {
            lemma_split_joined(kept);
            assert(split_of(normal, k) =~= root + kept);
        } else {
            assert(joined_with(kept, "/"@) =~= Seq::<char>::empty());
            assert(split_of(normal, k) =~= root + root);
            assert((root + root).drop_last() =~= root);
            assert(root.drop_last() =~= Seq::<Seq<char>>::empty());
            assert(counted(root.drop_last()) =~= kept);
            assert(counted(root) =~= kept);
            assert(counted(root + root) =~= kept);
        }
        assert(normal[0] == '/');
    } else {
        lemma_counted_again(kept, false);
        assert(normal =~= joined_with(kept, "/"@));
        if path.len() > 0 {
            assert(segments[0].len() > 0);
            lemma_split_joined(kept);
        } else {
            assert(path =~= Seq::<char>::empty());
            assert(segments =~= seq![Seq::<char>::empty()]);
            assert(segments.drop_last() =~= Seq::<Seq<char>>::empty());
            assert(counted(segments.drop_last()) =~= Seq::<Seq<char>>::empty());
            assert(normal =~= path);
        }
    }
}

/// The directory a path is in is a shorter path.
pub proof fn lemma_parent_shorter(path: Seq<char>)
    ensures
        parent_of(path) is Some ==> parent_of(path)->Some_0.len() < path.len(),
{
    reveal_strlit("/");
    lemma_rfind(path, "/"@, path.len() - "/"@.len());
    if path.len() == 1 && path[0] == '/' {
        assert(path =~= "/"@);
    }
    if path.len() == 1 && rfind_of(path, "/"@) == Some(0nat) {
        assert(path.subrange(0, 1) =~= path);
    }
}

/// The directory a path is in.
pub fn parent(path: &str) -> (r: Option<String>)
    ensures
        r.deep_view() == parent_of(path@),
{
    proof {
        reveal_strlit("/");
    }
    if path.is_empty() || crate::text::same(path, "/") {
        return None;
    }
    let all = chars(path);
    let slash = chars("/");
    match rfind(all.as_slice(), slash.as_slice()) {
        None => {
            let none = String::new();
            proof {
                assert(none@ =~= seq![]);
            }
            Some(none)
        },
        Some(at) => {
            if at == 0 {
                Some("/".to_owned())
            } else {
                proof {
                    assert(all@.subrange(0, at as int) =~= all@.take(at as int));
                }
                Some(string(part(all.as_slice(), 0, at)))
            }
        },
    }
}

/// The one spelling of a path.
pub fn normal(path: &str) -> (r: String)
    ensures
        r@ == normal_of(path@),
{
    let all = chars(path);
    let segments = split(all.as_slice(), Class::One('/'));
    let ghost text = segments.deep_view();
    let mut kept: Vec<String> = Vec::new();
    let mut i: usize = 0;
    proof {
        assert(kept.deep_view() =~= seq![]);
    }
    while i < segments.len()
        invariant
            i <= segments@.len(),
            text == segments.deep_view(),
            kept.deep_view() == counted(text.take(i as int)),
        decreases segments@.len() - i,
    {
        let segment = segments[i].as_str();
        proof {
            assert(text.take(i + 1).drop_last() =~= text.take(i as int));
            assert(text.take(i + 1).last() == segment@);
        }
        if !segment.is_empty() && !(same(segment, ".") && i > 0) {
            let ghost before = kept.deep_view();
            kept.push(segment.to_owned());
            proof {
                assert(kept.deep_view() =~= before.push(segment@));
            }
        }
        i += 1;
    }
    proof {
        assert(text.take(i as int) =~= text);
    }
    let root = if all.len() > 0 && all[0] == '/' { "/" } else { "" };
    root.to_owned().concat(join_texts(&kept, "/").as_str())
}

/// The directory of a file, in its one spelling.
pub fn directory(path: &str) -> (r: String)
    ensures
        r@ == dir_of(path@),
{
    let path = normal(path);
    match parent(path.as_str()) {
        Some(dir) => dir,
        None => {
            let none = String::new();
            proof {
                assert(none@ =~= seq![]);
            }
            none
        },
    }
}

/// A path with slashes alone between its segments: on Windows a backslash
/// stands between them too.
pub open spec fn slashed_of(path: Seq<char>, windows: bool) -> Seq<char> {
    Seq::new(
        path.len(),
        |i: int|
            if windows && path[i] == '\\' {
                '/'
            } else {
                path[i]
            },
    )
}

pub fn slashed(path: &str, windows: bool) -> (r: String)
    ensures
        r@ == slashed_of(path@, windows),
{
    let all = chars(path);
    let mut out: Vec<char> = Vec::new();
    let mut i: usize = 0;
    while i < all.len()
        invariant
            i <= all@.len(),
            all@ == path@,
            out@ == slashed_of(path@, windows).take(i as int),
        decreases all@.len() - i,
    {
        let c = if windows && all[i] == '\\' {
            '/'
        } else {
            all[i]
        };
        out.push(c);
        proof {
            assert(out@ =~= slashed_of(path@, windows).take(i + 1));
        }
        i += 1;
    }
    proof {
        assert(out@ =~= slashed_of(path@, windows));
    }
    string(out.as_slice())
}

/// Whether a path starts with the letter of a drive.
pub open spec fn has_drive(path: Seq<char>) -> bool {
    path.len() >= 2 && (('a' <= path[0] && path[0] <= 'z') || ('A' <= path[0] && path[0] <= 'Z'))
        && path[1] == ':'
}

/// The one spelling of a path as a platform writes it.
pub open spec fn spelled_of(path: Seq<char>, windows: bool) -> Seq<char> {
    normal_of(slashed_of(path, windows))
}

pub fn spelled(path: &str, windows: bool) -> (r: String)
    ensures
        r@ == spelled_of(path@, windows),
{
    normal(slashed(path, windows).as_str())
}

/// A path below a directory as a platform writes it, in its one spelling; an
/// absolute one stands for itself, and so does one with a drive on Windows.
pub open spec fn reached_of(dir: Seq<char>, target: Seq<char>, windows: bool) -> Seq<char> {
    let target = slashed_of(target, windows);
    if windows && has_drive(target) {
        normal_of(target)
    } else {
        join_of(dir, target)
    }
}

pub fn reached(dir: &str, target: &str, windows: bool) -> (r: String)
    ensures
        r@ == reached_of(dir@, target@, windows),
{
    let target = slashed(target, windows);
    let all = chars(target.as_str());
    if windows && all.len() >= 2 && (('a' <= all[0] && all[0] <= 'z') || ('A' <= all[0] && all[0]
        <= 'Z')) && all[1] == ':' {
        normal(target.as_str())
    } else {
        join(dir, target.as_str())
    }
}

/// Whether two texts are spellings of one path.
pub open spec fn is_same_path(a: Seq<char>, b: Seq<char>) -> bool {
    normal_of(a) == normal_of(b)
}

pub fn same_path(a: &str, b: &str) -> (r: bool)
    ensures
        r == is_same_path(a@, b@),
{
    same(normal(a).as_str(), normal(b).as_str())
}

/// The last segment of a path, where that is a name.
pub fn file_name(path: &str) -> (r: String)
    ensures
        r@ == name_of(path@),
{
    let whole = normal(path);
    let last = last_segment(whole.as_str());
    if same(last.as_str(), ".") || same(last.as_str(), "..") {
        let none = String::new();
        proof {
            assert(none@ =~= seq![]);
        }
        none
    } else {
        last
    }
}

fn last_segment(path: &str) -> (r: String)
    ensures
        r@ == last_of(path@),
{
    proof {
        reveal_strlit("/");
    }
    let all = chars(path);
    let slash = chars("/");
    let len: usize = all.len();
    match rfind(all.as_slice(), slash.as_slice()) {
        None => path.to_owned(),
        Some(at) => {
            proof {
                assert(all@.subrange(at + 1, all@.len() as int) =~= all@.skip(at + 1));
            }
            string(part(all.as_slice(), at + 1, len))
        },
    }
}

/// A path below a directory, in its one spelling; an absolute one stands for
/// itself.
pub fn join(dir: &str, target: &str) -> (r: String)
    ensures
        r@ == join_of(dir@, target@),
{
    let d = chars(dir);
    let t = chars(target);
    if d.len() == 0 || (t.len() > 0 && t[0] == '/') {
        return normal(target);
    }
    let mut s = dir.to_owned();
    if d[d.len() - 1] != '/' {
        s.append("/");
    }
    s.append(target);
    proof {
        assert(s@ =~= below(dir@, target@));
    }
    normal(s.as_str())
}

/// Where a segment stands among others, by its kind: the root first, then the
/// two that stand for a directory, then names.
pub open spec fn segment_rank(s: Seq<char>) -> int {
    if s.len() == 0 {
        0
    } else if s == "."@ {
        1
    } else if s == ".."@ {
        2
    } else {
        3
    }
}

pub open spec fn segment_order(a: Seq<char>, b: Seq<char>) -> Order {
    chain(int_order(segment_rank(a), segment_rank(b)), text_order(a, b))
}

fn rank_of(s: &str) -> (r: usize)
    ensures
        r == segment_rank(s@),
{
    if s.is_empty() {
        0
    } else if same(s, ".") {
        1
    } else if same(s, "..") {
        2
    } else {
        3
    }
}

fn compare_segments(a: &str, b: &str) -> (r: Order)
    ensures
        r == segment_order(a@, b@),
{
    let o = usize_order(rank_of(a), rank_of(b));
    if o != Order::Equal {
        o
    } else {
        compare_text(a, b)
    }
}

/// Lists of segments in dictionary order.
pub open spec fn segments_order(a: Seq<Seq<char>>, b: Seq<Seq<char>>) -> Order
    decreases a.len(),
{
    if a.len() == 0 || b.len() == 0 {
        int_order(a.len() as int, b.len() as int)
    } else {
        chain(segment_order(a[0], b[0]), segments_order(a.skip(1), b.skip(1)))
    }
}

/// Paths segment by segment, so that what is in a directory stays together.
pub open spec fn path_order(a: Seq<char>, b: Seq<char>) -> Order {
    segments_order(
        split_of(normal_of(a), Class::One('/')),
        split_of(normal_of(b), Class::One('/')),
    )
}

pub proof fn lemma_segments_flip(a: Seq<Seq<char>>, b: Seq<Seq<char>>)
    ensures
        segments_order(b, a) == flip(segments_order(a, b)),
    decreases a.len(),
{
    if a.len() > 0 && b.len() > 0 {
        crate::order::lemma_text_flip(a[0], b[0]);
        lemma_segments_flip(a.skip(1), b.skip(1));
    }
}

pub proof fn lemma_segments_coherent(a: Seq<Seq<char>>, b: Seq<Seq<char>>, c: Seq<Seq<char>>)
    ensures
        coherent(segments_order(a, b), segments_order(b, c), segments_order(a, c)),
    decreases a.len() + b.len(),
{
    if a.len() > 0 && b.len() > 0 && c.len() > 0 {
        crate::order::lemma_text_coherent(a[0], b[0], c[0]);
        lemma_segments_coherent(a.skip(1), b.skip(1), c.skip(1));
    }
}

/// Compares two paths segment by segment.
pub fn compare_paths(a: &str, b: &str) -> (r: Order)
    ensures
        r == path_order(a@, b@),
{
    let x = chars(normal(a).as_str());
    let y = chars(normal(b).as_str());
    let xs = split(x.as_slice(), Class::One('/'));
    let ys = split(y.as_slice(), Class::One('/'));
    let ghost av = xs.deep_view();
    let ghost bv = ys.deep_view();
    let mut i: usize = 0;
    proof {
        assert(av.skip(0) =~= av);
        assert(bv.skip(0) =~= bv);
    }
    while i < xs.len() && i < ys.len()
        invariant
            i <= xs@.len(),
            i <= ys@.len(),
            av == xs.deep_view(),
            bv == ys.deep_view(),
            path_order(a@, b@) == segments_order(av.skip(i as int), bv.skip(i as int)),
        decreases xs@.len() - i,
    {
        proof {
            assert(av.skip(i as int)[0] == xs@[i as int]@);
            assert(bv.skip(i as int)[0] == ys@[i as int]@);
            assert(av.skip(i as int).skip(1) =~= av.skip(i + 1));
            assert(bv.skip(i as int).skip(1) =~= bv.skip(i + 1));
        }
        let o = compare_segments(xs[i].as_str(), ys[i].as_str());
        if o != Order::Equal {
            return o;
        }
        i += 1;
    }
    usize_order(xs.len(), ys.len())
}

// ---- a name below a directory ----

proof fn lemma_rfind_last(s: Seq<char>, to: int, at: int)
    requires
        0 <= at <= to < s.len(),
        s[at] == '/',
        forall|j: int| at < j <= to ==> #[trigger] s[j] != '/',
    ensures
        crate::text::rfind_to(s, "/"@, to) == Some(at as nat),
    decreases to,
{
    reveal_strlit("/");
    let part = s.subrange(to, to + 1);
    if at == to {
        assert(part =~= "/"@);
    } else {
        assert(part[0] == s[to]);
        assert(part != "/"@);
        lemma_rfind_last(s, to - 1, at);
    }
}

/// A name below a directory is written behind it and a slash. Its directory is
/// that one, and it is its name.
pub proof fn a_name_stands_below_its_directory(dir: Seq<char>, name: Seq<char>)
    requires
        normal_of(dir) == dir,
        dir.len() > 0,
        dir != "/"@,
        is_whole(name),
        name.len() > 0,
        name != "."@,
        name != ".."@,
    ensures
        join_of(dir, name) == dir + "/"@ + name,
        dir_of(join_of(dir, name)) == dir,
        name_of(join_of(dir, name)) == name,
{
    reveal_strlit("/");
    reveal_strlit("");
    let k = Class::One('/');
    let path = dir + seq!['/'] + name;
    assert(path =~= dir + "/"@ + name);
    lemma_split_at(dir, name);
    lemma_split_whole(name);
    let segments = split_of(dir, k);
    crate::text::lemma_split_nonempty(dir, k);
    lemma_split_whole(dir);
    lemma_counted(segments);
    assert(segments + seq![name] =~= segments.push(name));
    assert(segments.push(name).drop_last() =~= segments);
    let kept = counted(segments);
    assert(counted(segments.push(name)) == kept.push(name));
    if kept.len() == 0 {
        assert(joined_with(kept, "/"@) =~= seq![]);
        assert(normal_of(dir) =~= "/"@ || normal_of(dir) =~= seq![]);
    }
    assert(kept.push(name).drop_last() =~= kept);
    assert(joined_with(kept.push(name), "/"@) == joined_with(kept, "/"@) + "/"@ + name);
    assert(path[0] == dir[0]);
    assert(normal_of(path) =~= path);
    lemma_no_last_slash(dir);
    assert(name[0] != '/');
    assert(below(dir, name) == path);
    assert(join_of(dir, name) == path);
    the_one_spelling_is_its_own(path);
    let at = dir.len() as int;
    assert(path[at] == '/');
    assert forall|j: int| at < j <= path.len() - 1 implies #[trigger] path[j] != '/' by {
        assert(path[j] == name[j - at - 1]);
    }
    lemma_rfind_last(path, path.len() - 1, at);
    assert(path.take(at) =~= dir);
    assert(path.skip(at + 1) =~= name);
    assert(path != "/"@) by {
        assert(path.len() > 1);
    }
}

proof fn lemma_no_last_slash(dir: Seq<char>)
    requires
        normal_of(dir) == dir,
        dir.len() > 0,
        dir != "/"@,
    ensures
        dir.last() != '/',
{
    reveal_strlit("/");
    reveal_strlit("");
    let k = Class::One('/');
    let segments = split_of(dir, k);
    lemma_split_whole(dir);
    lemma_counted(segments);
    let kept = counted(segments);
    if kept.len() == 0 {
        assert(joined_with(kept, "/"@) =~= seq![]);
        assert(normal_of(dir) =~= "/"@ || normal_of(dir) =~= seq![]);
    } else {
        let last = kept[kept.len() - 1];
        assert(is_whole(last) && last.len() > 0);
        assert(last[last.len() - 1] != '/');
        let j = joined_with(kept, "/"@);
        if kept.len() == 1 {
            assert(j == last);
        } else {
            assert(j == joined_with(kept.drop_last(), "/"@) + "/"@ + last);
        }
        assert(j[j.len() - 1] == last[last.len() - 1]);
        assert(dir[dir.len() - 1] == j[j.len() - 1]);
    }
}

/// What is absolute is where it says, whatever directory names it; on Windows so
/// is what has a drive, and a backslash is a slash.
pub proof fn an_absolute_path_stands_for_itself(dir: Seq<char>, rest: Seq<char>, drive: char)
    requires
        'a' <= drive <= 'z' || 'A' <= drive <= 'Z',
    ensures
        join_of(dir, "/"@ + rest) == normal_of("/"@ + rest),
        reached_of(dir, seq![drive, ':', '\\'] + rest, true) == normal_of(
            seq![drive, ':', '/'] + slashed_of(rest, true),
        ),
        slashed_of(rest, false) == rest,
{
    reveal_strlit("/");
    let t = "/"@ + rest;
    assert(t[0] == '/');
    let w = seq![drive, ':', '\\'] + rest;
    assert(slashed_of(w, true) =~= seq![drive, ':', '/'] + slashed_of(rest, true));
    assert(slashed_of(rest, false) =~= rest);
}

} // verus!
