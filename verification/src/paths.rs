//! Path identity: canonical component sequences, the relative form of a
//! path inside a root, and the joined string keys the store uses.
//!
//! Callers canonicalize paths (resolving symlinks, `.` and `..`) before
//! handing them in, so a path is a sequence of plain components; two paths
//! are the same entry exactly when their component sequences are equal.
use vstd::prelude::*;
use vstd::string::StrSliceExecFns;
use vstd::string::StringExecFns;
use crate::codec::push_char;
use crate::Error;

verus! {

/// The views of a list of strings.
pub open spec fn strs_view(v: Seq<String>) -> Seq<Seq<char>> {
    v.map_values(|s: String| s@)
}

/// A valid canonical path component: non-empty and without a separator.
pub open spec fn valid_component(c: Seq<char>) -> bool {
    c.len() > 0 && forall|i: int| 0 <= i < c.len() ==> c[i] != '/'
}

/// Components joined with the separator.
pub open spec fn join_comps(cs: Seq<Seq<char>>) -> Seq<char>
    decreases cs.len(),
{
    if cs.len() == 0 {
        Seq::empty()
    } else if cs.len() == 1 {
        cs[0]
    } else {
        join_comps(cs.drop_last()) + seq!['/'] + cs.last()
    }
}

/// Whether `root` is a strict prefix of `target`, component by component.
pub open spec fn strictly_inside(root: Seq<Seq<char>>, target: Seq<Seq<char>>) -> bool {
    root.len() < target.len() && (forall|i: int| 0 <= i < root.len() ==> root[i] == target[i])
}

/// How many separators a string holds; a valid relative key of `n`
/// components holds `n - 1`, which is the renderer's indent depth.
pub open spec fn slash_count(s: Seq<char>) -> nat
    decreases s.len(),
{
    if s.len() == 0 {
        0
    } else {
        (if s[0] == '/' {
            1nat
        } else {
            0nat
        }) + slash_count(s.skip(1))
    }
}

/// Counting separators distributes over appending one character.
pub proof fn lemma_slash_count_push(s: Seq<char>, c: char)
    ensures
        slash_count(s.push(c)) == slash_count(s) + (if c == '/' {
            1nat
        } else {
            0nat
        }),
    decreases s.len(),
{
    if s.len() == 0 {
        let t = s.push(c);
        assert(t[0] == c);
        assert(t.skip(1) =~= Seq::<char>::empty());
        assert(slash_count(t.skip(1)) == 0);
    } else {
        assert(s.push(c)[0] == s[0]);
        assert(s.push(c).skip(1) =~= s.skip(1).push(c));
        lemma_slash_count_push(s.skip(1), c);
    }
}

/// Counting separators distributes over concatenation.
pub proof fn lemma_slash_count_add(a: Seq<char>, b: Seq<char>)
    ensures
        slash_count(a + b) == slash_count(a) + slash_count(b),
    decreases a.len(),
{
    if a.len() == 0 {
        assert(a + b =~= b);
    } else {
        assert((a + b)[0] == a[0]);
        assert((a + b).skip(1) =~= a.skip(1) + b);
        lemma_slash_count_add(a.skip(1), b);
    }
}

/// A valid component holds no separator at all.
pub proof fn lemma_component_no_slash(c: Seq<char>)
    requires
        forall|i: int| 0 <= i < c.len() ==> c[i] != '/',
    ensures
        slash_count(c) == 0,
    decreases c.len(),
{
    if c.len() > 0 {
        assert forall|i: int| 0 <= i < c.skip(1).len() implies c.skip(1)[i] != '/' by {
            assert(c.skip(1)[i] == c[i + 1]);
        }
        lemma_component_no_slash(c.skip(1));
    }
}

/// A joined key of `n` valid components holds exactly `n - 1` separators:
/// the renderer's depth is the component count minus one.
pub proof fn lemma_join_depth(cs: Seq<Seq<char>>)
    requires
        cs.len() > 0,
        forall|i: int| 0 <= i < cs.len() ==> valid_component(#[trigger] cs[i]),
    ensures
        slash_count(join_comps(cs)) == cs.len() - 1,
    decreases cs.len(),
{
    if cs.len() == 1 {
        lemma_component_no_slash(cs[0]);
    } else {
        assert forall|i: int| 0 <= i < cs.drop_last().len() implies valid_component(
            #[trigger] cs.drop_last()[i],
        ) by {
            assert(cs.drop_last()[i] == cs[i]);
        }
        lemma_join_depth(cs.drop_last());
        lemma_slash_count_add(join_comps(cs.drop_last()), seq!['/']);
        lemma_slash_count_add(join_comps(cs.drop_last()) + seq!['/'], cs.last());
        lemma_component_no_slash(cs.last());
        assert(slash_count(seq!['/']) == 1) by {
            assert(seq!['/'].skip(1) =~= Seq::<char>::empty());
            assert(slash_count(seq!['/'].skip(1)) == 0);
        }
        assert(join_comps(cs) =~= (join_comps(cs.drop_last()) + seq!['/']) + cs.last());
    }
}

/// The relative key of a canonical absolute `target` under the store's
/// `root`: the joined components past the prefix if `target` lies strictly
/// inside `root`, and `Unrelated` otherwise. The root itself denotes no
/// entry and is unrelated too.
pub fn normalize(root: &Vec<String>, target: &Vec<String>) -> (r: Result<String, Error>)
    ensures
        r is Ok <==> strictly_inside(strs_view(root@), strs_view(target@)),
        r is Ok ==> r->Ok_0@ == join_comps(strs_view(target@).skip(root@.len() as int)),
        r is Err ==> r->Err_0 == Error::Unrelated,
{
    let rl = root.len();
    let tl = target.len();
    if rl >= tl {
        return Err(Error::Unrelated);
    }
    let mut i: usize = 0;
    while i < rl
        invariant
            i <= rl,
            rl == root@.len(),
            tl == target@.len(),
            rl < tl,
            forall|j: int| 0 <= j < i ==> strs_view(root@)[j] == strs_view(target@)[j],
        decreases rl - i,
    {
        if !(root[i] == target[i]) {
            proof {
                assert(strs_view(root@)[i as int] != strs_view(target@)[i as int]);
            }
            return Err(Error::Unrelated);
        }
        i = i + 1;
    }
    let suffix_len = tl - rl;
    let ghost suffix = strs_view(target@).skip(rl as int);
    let mut out = String::new();
    let mut j: usize = 0;
    proof {
        assert(suffix.take(0) =~= Seq::<Seq<char>>::empty());
    }
    while j < suffix_len
        invariant
            j <= suffix_len,
            rl + suffix_len == tl,
            rl == root@.len(),
            tl == target@.len(),
            suffix == strs_view(target@).skip(rl as int),
            out@ == join_comps(suffix.take(j as int)),
        decreases suffix_len - j,
    {
        if j > 0 {
            push_char(&mut out, '/');
        }
        out.append(target[rl + j].as_str());
        proof {
            let t = suffix.take(j + 1);
            assert(t.drop_last() =~= suffix.take(j as int));
            assert(t.last() == suffix[j as int]);
            assert(suffix[j as int] == strs_view(target@)[rl + j]);
            assert(strs_view(target@)[rl + j] == target@[rl + j]@);
            if j == 0 {
                assert(out@ =~= join_comps(t));
            } else {
                assert(out@ =~= (join_comps(suffix.take(j as int)) + seq!['/']) + target@[rl
                    + j]@);
                assert(join_comps(t) =~= (join_comps(t.drop_last()) + seq!['/']) + t.last());
            }
        }
        j = j + 1;
    }
    proof {
        assert(suffix.take(suffix_len as int) =~= suffix);
    }
    Ok(out)
}

/// How many separators `path` holds: the indent depth of a relative key is
/// this count, its component count minus one.
pub fn depth(path: &str) -> (r: usize)
    ensures
        r == slash_count(path@),
{
    let n = path.unicode_len();
    let mut count: usize = 0;
    let mut i: usize = 0;
    proof {
        assert(path@.take(0) =~= Seq::<char>::empty());
    }
    while i < n
        invariant
            i <= n,
            n == path@.len(),
            count <= i,
            count == slash_count(path@.take(i as int)),
        decreases n - i,
    {
        let c = path.get_char(i);
        proof {
            assert(path@.take(i + 1) =~= path@.take(i as int).push(path@[i as int]));
            lemma_slash_count_push(path@.take(i as int), path@[i as int]);
        }
        if c == '/' {
            count = count + 1;
        }
        i = i + 1;
    }
    proof {
        assert(path@.take(n as int) =~= path@);
    }
    count
}

} // verus!
