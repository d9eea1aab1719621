//! Where the files of one model go, and what each of them is called.

use vstd::prelude::*;
use vstd::string::*;
use crate::text::{
    last_index_of, lower_of, remove_first, lemma_last_index_of_bounds, find_last,
    lowercase, remove_first_char, lemma_last_index_of_split, lemma_last_index_of_absent,
};

verus! {

/// The token in a file-name template that stands for the scheme.
pub const PLACEHOLDER: &'static str = "###";

/// Appended to a derived template: the placeholder and the file extension.
pub const TEMPLATE_SUFFIX: &'static str = "-###.uqff";

pub open spec fn placeholder() -> Seq<char> {
    seq!['#', '#', '#']
}

pub open spec fn template_suffix() -> Seq<char> {
    seq!['-', '#', '#', '#', '.', 'u', 'q', 'f', 'f']
}

/// The last `/`-separated segment of a model identifier.
pub open spec fn model_name_of(id: Seq<char>) -> Seq<char> {
    id.skip(last_index_of(id, '/') + 1)
}

/// `name` placed inside directory `dir`, as a relative `PathBuf::join` does on Unix.
pub open spec fn joined(dir: Seq<char>, name: Seq<char>) -> Seq<char> {
    if name.len() > 0 && name[0] == '/' {
        name
    } else if dir.len() == 0 || dir.last() == '/' {
        dir + name
    } else {
        dir + seq!['/'] + name
    }
}

/// The directory that receives a model's files.
pub open spec fn output_dir_of(id: Seq<char>, save_dir: Option<Seq<char>>) -> Seq<char> {
    match save_dir {
        Some(d) => joined(d, model_name_of(id)),
        None => model_name_of(id),
    }
}

/// The template derived from a model name: lower-cased, first hyphen removed, suffix appended.
pub open spec fn default_template_of(name: Seq<char>) -> Seq<char> {
    remove_first(lower_of(name), '-') + template_suffix()
}

/// `s` with every non-overlapping occurrence of `p`, scanned from the left, replaced by `r`.
pub open spec fn replace_all(s: Seq<char>, p: Seq<char>, r: Seq<char>) -> Seq<char>
    decreases s.len(),
{
    if p.len() == 0 || s.len() < p.len() {
        s
    } else if s.take(p.len() as int) == p {
        r + replace_all(s.skip(p.len() as int), p, r)
    } else {
        seq![s[0]] + replace_all(s.drop_first(), p, r)
    }
}

/// The file name for one scheme: each placeholder becomes the lower-cased scheme name.
pub open spec fn filename_of(template: Seq<char>, scheme: Seq<char>) -> Seq<char> {
    replace_all(template, placeholder(), lower_of(scheme))
}

/// The last segment of a model identifier, or the whole identifier when it has no `/`.
pub fn model_name(model_id: &str) -> (r: String)
    ensures
        r@ == model_name_of(model_id@),
{
    proof {
        lemma_last_index_of_bounds(model_id@, '/');
    }
    let n = model_id.unicode_len();
    match find_last(model_id, '/') {
        Some(k) => model_id.substring_char(k + 1, n).to_string(),
        None => {
            assert(model_id@.skip(0) =~= model_id@);
            model_id.to_string()
        },
    }
}

/// `name` inside directory `dir`.
pub fn join_path(dir: &str, name: &str) -> (r: String)
    ensures
        r@ == joined(dir@, name@),
{
    let dn = dir.unicode_len();
    let nn = name.unicode_len();
    if nn > 0 && name.get_char(0) == '/' {
        name.to_string()
    } else if dn == 0 || dir.get_char(dn - 1) == '/' {
        let mut r = dir.to_string();
        r.append(name);
        r
    } else {
        let mut r = dir.to_string();
        r.append("/");
        r.append(name);
        proof {
            reveal_strlit("/");
        }
        assert(r@ =~= dir@ + seq!['/'] + name@);
        r
    }
}

/// The directory for a model's files: `save_dir/model_name`, or `model_name` alone.
pub fn output_directory(model_id: &str, save_dir: Option<&str>) -> (r: String)
    ensures
        r@ == output_dir_of(model_id@, match save_dir {
            Some(d) => Some(d@),
            None => None,
        }),
{
    let name = model_name(model_id);
    match save_dir {
        Some(d) => join_path(d, name.as_str()),
        None => name,
    }
}

/// The template derived from a model name.
pub fn default_template(model_name: &str) -> (r: String)
    ensures
        r@ == default_template_of(model_name@),
{
    let lower = lowercase(model_name);
    let mut r = remove_first_char(lower.as_str(), '-');
    r.append(TEMPLATE_SUFFIX);
    proof {
        reveal_strlit("-###.uqff");
    }
    assert(TEMPLATE_SUFFIX@ =~= template_suffix());
    r
}

/// The output directory and the file-name template for a model.
pub fn derive_output_layout(model_id: &str, template: Option<&str>, save_dir: Option<&str>) -> (r: (
    String,
    String,
))
    ensures
        r.0@ == output_dir_of(model_id@, match save_dir {
            Some(d) => Some(d@),
            None => None,
        }),
        r.1@ == match template {
            Some(t) => t@,
            None => default_template_of(model_name_of(model_id@)),
        },
{
    let dir = output_directory(model_id, save_dir);
    let t = match template {
        Some(t) => t.to_string(),
        None => {
            let name = model_name(model_id);
            default_template(name.as_str())
        },
    };
    (dir, t)
}

/// Whether `p` occurs in `s` at position `i`.
fn occurs_at(s: &str, p: &str, i: usize) -> (r: bool)
    requires
        i <= s@.len(),
    ensures
        r == (i + p@.len() <= s@.len() && s@.subrange(i as int, i + p@.len()) == p@),
{
    let sn = s.unicode_len();
    let pn = p.unicode_len();
    if pn > sn - i {
        return false;
    }
    let mut j: usize = 0;
    while j < pn
        invariant
            sn == s@.len(),
            pn == p@.len(),
            i + pn <= sn,
            j <= pn,
            forall|k: int| 0 <= k < j ==> s@[i + k] == p@[k],
        decreases pn - j,
    {
        if s.get_char(i + j) != p.get_char(j) {
            assert(s@.subrange(i as int, i + pn)[j as int] != p@[j as int]);
            return false;
        }
        j = j + 1;
    }
    assert(s@.subrange(i as int, i + pn) =~= p@);
    true
}

/// `s` with every occurrence of a non-empty `p` replaced by `rep`.
pub fn replace_all_str(s: &str, p: &str, rep: &str) -> (r: String)
    requires
        p@.len() > 0,
    ensures
        r@ == replace_all(s@, p@, rep@),
{
    let n = s.unicode_len();
    let pn = p.unicode_len();
    let mut r = String::new();
    let mut i: usize = 0;
    assert(s@.skip(0) =~= s@);
    assert(r@ + s@ =~= s@);
    while i < n
        invariant
            n == s@.len(),
            pn == p@.len(),
            pn > 0,
            i <= n,
            r@ + replace_all(s@.skip(i as int), p@, rep@) == replace_all(s@, p@, rep@),
        decreases n - i,
    {
        let ghost rest = s@.skip(i as int);
        if occurs_at(s, p, i) {
            assert(rest.take(pn as int) =~= s@.subrange(i as int, i + pn));
            assert(rest.skip(pn as int) =~= s@.skip(i + pn));
            r.append(rep);
            i = i + pn;
        } else {
            proof {
                assert(rest.drop_first() =~= s@.skip(i + 1));
                if rest.len() < pn {
                    assert(replace_all(rest.drop_first(), p@, rep@) == rest.drop_first());
                    assert(seq![rest[0]] + rest.drop_first() =~= rest);
                } else {
                    assert(rest.take(pn as int) =~= s@.subrange(i as int, i + pn));
                }
            }
            let one = s.substring_char(i, i + 1);
            assert(one@ =~= seq![rest[0]]);
            r.append(one);
            i = i + 1;
        }
    }
    assert(s@.skip(n as int) =~= Seq::<char>::empty());
    r
}

/// The file name for one scheme under a template.
pub fn materialize(template: &str, scheme: &str) -> (r: String)
    ensures
        r@ == filename_of(template@, scheme@),
{
    let name = lowercase(scheme);
    proof {
        reveal_strlit("###");
    }
    assert(PLACEHOLDER@ =~= placeholder());
    replace_all_str(template, PLACEHOLDER, name.as_str())
}

/// A model identifier of the form `prefix/name`, with no `/` in `name`, puts
/// its files in a directory whose path ends in `name`, with or without a
/// save directory.
pub proof fn lemma_output_directory_ends_with_name(
    prefix: Seq<char>,
    name: Seq<char>,
    save_dir: Option<Seq<char>>,
)
    requires
        !name.contains('/'),
    ensures
        ({
            let out = output_dir_of(prefix + seq!['/'] + name, save_dir);
            out.len() >= name.len() && out.skip(out.len() - name.len()) == name
        }),
{
    let id = prefix + seq!['/'] + name;
    lemma_last_index_of_split(prefix, '/', name);
    assert(model_name_of(id) =~= name);
    if name.len() > 0 {
        assert(name[0] != '/') by {
            if name[0] == '/' {
                assert(name.contains('/'));
            }
        }
    }
    let out = output_dir_of(id, save_dir);
    assert(out.skip(out.len() - name.len()) =~= name);
}

/// An identifier without `/` is its own model name.
pub proof fn lemma_model_name_without_separator(id: Seq<char>)
    requires
        !id.contains('/'),
    ensures
        model_name_of(id) == id,
{
    lemma_last_index_of_absent(id, '/');
    assert(id.skip(0) =~= id);
}

/// A file name depends on the template and the scheme alone.
pub proof fn lemma_materialize_deterministic(t1: Seq<char>, s1: Seq<char>, t2: Seq<char>, s2: Seq<char>)
    requires
        t1 == t2,
        s1 == s2,
    ensures
        filename_of(t1, s1) == filename_of(t2, s2),
{
}

proof fn lemma_replace_prefix_free(a: Seq<char>, rest: Seq<char>, r: Seq<char>)
    requires
        !a.contains('#'),
    ensures
        replace_all(a + rest, placeholder(), r) == a + replace_all(rest, placeholder(), r),
    decreases a.len(),
{
    if a.len() > 0 {
        let s = a + rest;
        assert(s[0] == a[0]);
        assert(a[0] != '#') by {
            if a[0] == '#' {
                assert(a.contains('#'));
            }
        }
        if s.len() >= 3 {
            assert(s.take(3)[0] != placeholder()[0]);
        }
        assert(!a.drop_first().contains('#')) by {
            if a.drop_first().contains('#') {
                let j = choose|j: int| 0 <= j < a.drop_first().len() && a.drop_first()[j] == '#';
                assert(a[j + 1] == '#');
            }
        }
        lemma_replace_prefix_free(a.drop_first(), rest, r);
        assert(s.drop_first() =~= a.drop_first() + rest);
        assert(seq![a[0]] + a.drop_first() =~= a);
        assert(seq![a[0]] + (a.drop_first() + replace_all(rest, placeholder(), r)) =~= a
            + replace_all(rest, placeholder(), r));
    }
}

/// A template without a placeholder names the same file for every scheme.
pub proof fn lemma_materialize_without_placeholder(template: Seq<char>, scheme: Seq<char>)
    requires
        !template.contains('#'),
    ensures
        filename_of(template, scheme) == template,
{
    lemma_replace_prefix_free(template, Seq::empty(), lower_of(scheme));
    assert(template + Seq::<char>::empty() =~= template);
}

/// With one placeholder and no other `#`, the placeholder becomes the
/// lower-cased scheme name and nothing else changes.
pub proof fn lemma_materialize_one_placeholder(a: Seq<char>, b: Seq<char>, scheme: Seq<char>)
    requires
        !a.contains('#'),
        !b.contains('#'),
    ensures
        filename_of(a + placeholder() + b, scheme) == a + lower_of(scheme) + b,
{
    let r = lower_of(scheme);
    let rest = placeholder() + b;
    assert(a + placeholder() + b =~= a + rest);
    lemma_replace_prefix_free(a, rest, r);
    assert(rest.take(3) =~= placeholder());
    assert(rest.skip(3) =~= b);
    lemma_replace_prefix_free(b, Seq::empty(), r);
    assert(b + Seq::<char>::empty() =~= b);
    assert(a + (r + b) =~= a + r + b);
}

} // verus!
