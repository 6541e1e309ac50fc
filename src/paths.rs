//! Path arithmetic on paths held as sequences of segments.
use vstd::prelude::*;

verus! {

/// The characters of each segment of a path.
pub open spec fn segs_view(v: Seq<String>) -> Seq<Seq<char>> {
    v.map_values(|s: String| s@)
}

/// The character of a decimal digit.
pub open spec fn digit_char(d: nat) -> char {
    if d == 0 { '0' }
    else if d == 1 { '1' }
    else if d == 2 { '2' }
    else if d == 3 { '3' }
    else if d == 4 { '4' }
    else if d == 5 { '5' }
    else if d == 6 { '6' }
    else if d == 7 { '7' }
    else if d == 8 { '8' }
    else { '9' }
}

/// The decimal notation of `n`, without leading zeros.
pub open spec fn decimal(n: nat) -> Seq<char>
    decreases n,
{
    if n < 10 {
        seq![digit_char(n)]
    } else {
        decimal(n / 10).push(digit_char(n % 10))
    }
}

/// Whether `prefix` is a leading run of segments of `path`.
pub open spec fn is_seg_prefix(prefix: Seq<Seq<char>>, path: Seq<Seq<char>>) -> bool {
    prefix.len() <= path.len() && path.subrange(0, prefix.len() as int) == prefix
}

/// Each segment preceded by a separator, in order.
pub open spec fn slash_join(segs: Seq<Seq<char>>) -> Seq<char>
    decreases segs.len(),
{
    if segs.len() == 0 {
        seq![]
    } else {
        slash_join(segs.drop_last()) + seq!['/'] + segs.last()
    }
}

/// The name, inside a partition's archive, of a path relative to the
/// partition directory: rooted at a single separator.
pub open spec fn rooted_name(rel: Seq<Seq<char>>) -> Seq<char> {
    if rel.len() == 0 {
        seq!['/']
    } else {
        slash_join(rel)
    }
}

/// Whether `path` lies inside a partition directory directly under `root`
/// (or is that directory itself).
pub open spec fn in_partition(root: Seq<Seq<char>>, path: Seq<Seq<char>>) -> bool {
    is_seg_prefix(root, path) && path.len() > root.len()
}

/// The archive entry name of `path`: the root's segments and the partition
/// directory's own segment are dropped.
pub open spec fn entry_name_of(root: Seq<Seq<char>>, path: Seq<Seq<char>>) -> Seq<char> {
    rooted_name(path.subrange(root.len() + 1 as int, path.len() as int))
}

/// Where a file of the source tree is mirrored: under the destination root,
/// in the partition's directory, at the same place relative to the source root.
pub open spec fn mirror_of(
    source_root: Seq<Seq<char>>,
    dest_root: Seq<Seq<char>>,
    id: nat,
    file: Seq<Seq<char>>,
) -> Seq<Seq<char>> {
    dest_root.push(decimal(id)) + file.subrange(source_root.len() as int, file.len() as int)
}

proof fn lemma_slash_join_starts(segs: Seq<Seq<char>>)
    requires
        segs.len() > 0,
    ensures
        slash_join(segs).len() > 0,
        slash_join(segs)[0] == '/',
    decreases segs.len(),
{
    if segs.len() > 1 {
        lemma_slash_join_starts(segs.drop_last());
    } else {
        assert(slash_join(segs.drop_last()) == Seq::<char>::empty());
    }
}

proof fn lemma_slash_join_head(segs: Seq<Seq<char>>)
    requires
        segs.len() > 0,
    ensures
        slash_join(segs).len() >= 1 + segs[0].len(),
        slash_join(segs).subrange(0, 1 + segs[0].len() as int) == seq!['/'] + segs[0],
    decreases segs.len(),
{
    if segs.len() > 1 {
        let init = segs.drop_last();
        lemma_slash_join_head(init);
        let a = slash_join(init);
        let b = slash_join(segs);
        assert(b == a + seq!['/'] + segs.last());
        assert(b.subrange(0, 1 + segs[0].len() as int) =~= a.subrange(0, 1 + segs[0].len() as int));
    } else {
        assert(slash_join(segs.drop_last()) == Seq::<char>::empty());
        assert(slash_join(segs) =~= seq!['/'] + segs[0]);
        assert(slash_join(segs).subrange(0, 1 + segs[0].len() as int) =~= slash_join(segs));
    }
}

/// Where the first segment below the partition directory is not empty and
/// does not itself start with a separator, the entry name starts with
/// exactly one separator, followed by that segment.
pub proof fn entry_names_start_with_one_separator(rel: Seq<Seq<char>>)
    requires
        rel.len() > 0,
        rel[0].len() > 0,
        rel[0][0] != '/',
    ensures
        rooted_name(rel).len() > 1,
        rooted_name(rel)[0] == '/',
        rooted_name(rel)[1] != '/',
        rooted_name(rel)[1] == rel[0][0],
{
    lemma_slash_join_head(rel);
    let h = slash_join(rel).subrange(0, 1 + rel[0].len() as int);
    assert(h[0] == slash_join(rel)[0]);
    assert(h[1] == slash_join(rel)[1]);
    assert((seq!['/'] + rel[0])[1] == rel[0][0]);
}

/// An archive entry name always starts with a separator, and is made of the
/// segments below the partition directory alone: neither the destination
/// root nor the partition's own directory name takes part in it.
pub proof fn entry_names_are_relative(root: Seq<Seq<char>>, partition: Seq<char>, rel: Seq<Seq<char>>)
    ensures
        in_partition(root, root.push(partition) + rel),
        entry_name_of(root, root.push(partition) + rel) == rooted_name(rel),
        rooted_name(rel).len() > 0,
        rooted_name(rel)[0] == '/',
{
    let path = root.push(partition) + rel;
    assert(path.subrange(0, root.len() as int) =~= root);
    assert(path.subrange(root.len() + 1 as int, path.len() as int) =~= rel);
    if rel.len() > 0 {
        lemma_slash_join_starts(rel);
    }
}

proof fn lemma_segs_push(v: Seq<String>, x: String)
    ensures
        segs_view(v.push(x)) == segs_view(v).push(x@),
{
    assert(segs_view(v.push(x)) =~= segs_view(v).push(x@));
}

fn digit_string(d: u64) -> (r: String)
    requires
        d < 10,
    ensures
        r@ == seq![digit_char(d as nat)],
{
    proof {
        reveal_strlit("0");
        reveal_strlit("1");
        reveal_strlit("2");
        reveal_strlit("3");
        reveal_strlit("4");
        reveal_strlit("5");
        reveal_strlit("6");
        reveal_strlit("7");
        reveal_strlit("8");
        reveal_strlit("9");
    }
    let s: &str = if d == 0 { "0" }
    else if d == 1 { "1" }
    else if d == 2 { "2" }
    else if d == 3 { "3" }
    else if d == 4 { "4" }
    else if d == 5 { "5" }
    else if d == 6 { "6" }
    else if d == 7 { "7" }
    else if d == 8 { "8" }
    else { "9" };
    s.to_owned()
}

/// The decimal notation of `n`, the name of partition `n`'s directory.
pub fn decimal_string(n: u64) -> (r: String)
    ensures
        r@ == decimal(n as nat),
    decreases n,
{
    if n < 10 {
        digit_string(n)
    } else {
        let mut s = decimal_string(n / 10);
        let d = digit_string(n % 10);
        s.append(d.as_str());
        s
    }
}

/// Whether the first segments of `path` are those of `prefix`.
pub fn has_seg_prefix(prefix: &Vec<String>, path: &Vec<String>) -> (r: bool)
    ensures
        r == is_seg_prefix(segs_view(prefix@), segs_view(path@)),
{
    if prefix.len() > path.len() {
        return false;
    }
    let mut i: usize = 0;
    while i < prefix.len()
        invariant
            prefix.len() <= path.len(),
            i <= prefix.len(),
            forall|j: int| 0 <= j < i ==> prefix@[j]@ == path@[j]@,
        decreases prefix.len() - i,
    {
        if prefix[i] != path[i] {
            proof {
                assert(segs_view(path@).subrange(0, prefix.len() as int)[i as int]
                    != segs_view(prefix@)[i as int]);
            }
            return false;
        }
        i = i + 1;
    }
    assert(segs_view(path@).subrange(0, prefix.len() as int) =~= segs_view(prefix@));
    true
}

/// Where `file` is mirrored for partition `id`; `None` where `file` does not
/// lie under `source_root`.
pub fn mirror_destination(
    source_root: &Vec<String>,
    dest_root: &Vec<String>,
    id: u64,
    file: &Vec<String>,
) -> (r: Option<Vec<String>>)
    ensures
        r is Some <==> is_seg_prefix(segs_view(source_root@), segs_view(file@)),
        r matches Some(d) ==> segs_view(d@) == mirror_of(
            segs_view(source_root@),
            segs_view(dest_root@),
            id as nat,
            segs_view(file@),
        ),
{
    if !has_seg_prefix(source_root, file) {
        return None;
    }
    let mut out: Vec<String> = Vec::new();
    let mut i: usize = 0;
    while i < dest_root.len()
        invariant
            i <= dest_root.len(),
            segs_view(out@) == segs_view(dest_root@).subrange(0, i as int),
        decreases dest_root.len() - i,
    {
        let ghost prev = out@;
        out.push(dest_root[i].clone());
        proof {
            lemma_segs_push(prev, dest_root@[i as int]);
            assert(segs_view(out@) =~= segs_view(dest_root@).subrange(0, i + 1));
        }
        i = i + 1;
    }
    let ghost prev = out@;
    let id_seg = decimal_string(id);
    out.push(id_seg);
    proof {
        lemma_segs_push(prev, id_seg);
    }
    let ghost head = segs_view(dest_root@).push(decimal(id as nat));
    assert(segs_view(out@) =~= head);
    let mut k: usize = source_root.len();
    while k < file.len()
        invariant
            source_root.len() <= k <= file.len(),
            segs_view(out@) == head + segs_view(file@).subrange(
                source_root.len() as int,
                k as int,
            ),
        decreases file.len() - k,
    {
        let ghost prev = out@;
        out.push(file[k].clone());
        proof {
            lemma_segs_push(prev, file@[k as int]);
            assert(segs_view(out@) =~= head + segs_view(file@).subrange(
                source_root.len() as int,
                k + 1,
            ));
        }
        k = k + 1;
    }
    Some(out)
}

/// The archive entry name of `path`, a file or directory inside a partition
/// directory directly under `root`; `None` where `path` lies elsewhere.
pub fn entry_name(root: &Vec<String>, path: &Vec<String>) -> (r: Option<String>)
    ensures
        r is Some <==> in_partition(segs_view(root@), segs_view(path@)),
        r matches Some(n) ==> n@ == entry_name_of(segs_view(root@), segs_view(path@)),
{
    if !has_seg_prefix(root, path) || path.len() <= root.len() {
        return None;
    }
    let start: usize = root.len() + 1;
    let ghost rel = segs_view(path@).subrange(start as int, path.len() as int);
    proof {
        reveal_strlit("/");
    }
    if start == path.len() {
        assert(rel.len() == 0);
        return Some("/".to_owned());
    }
    let mut name = String::new();
    let mut k: usize = start;
    while k < path.len()
        invariant
            start <= k <= path.len(),
            rel == segs_view(path@).subrange(start as int, path.len() as int),
            name@ == slash_join(segs_view(path@).subrange(start as int, k as int)),
        decreases path.len() - k,
    {
        let ghost prev = name@;
        name.append("/");
        name.append(path[k].as_str());
        proof {
            let next = segs_view(path@).subrange(start as int, k + 1);
            reveal_strlit("/");
            assert("/"@ =~= seq!['/']);
            assert(name@ == prev + seq!['/'] + path@[k as int]@);
            assert(next.last() == path@[k as int]@);
            assert(next.drop_last() =~= segs_view(path@).subrange(start as int, k as int));
        }
        k = k + 1;
    }
    assert(segs_view(path@).subrange(start as int, k as int) == rel);
    Some(name)
}

/// The archive's file name for a partition directory named `dir_name`.
pub fn archive_name(dir_name: &String) -> (r: String)
    ensures
        r@ == dir_name@ + ".zip"@,
{
    let mut r = dir_name.clone();
    r.append(".zip");
    r
}

} // verus!
