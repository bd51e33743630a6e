//! Names of source packages.

use vstd::prelude::*;
use vstd::string::*;

verus! {

/// What the file name of a source package ends in.
pub open spec fn srpm_suffix() -> Seq<char> {
    ".src.rpm"@
}

/// The text without the suffix of a source package, if it ends in it.
pub open spec fn without_srpm_suffix(srpm: Seq<char>) -> Seq<char> {
    if srpm_suffix().is_suffix_of(srpm) {
        srpm.take(srpm.len() - srpm_suffix().len())
    } else {
        srpm
    }
}

/// The place of the last dash, or -1 where there is none.
pub open spec fn last_dash(text: Seq<char>) -> int
    decreases text.len(),
{
    if text.len() == 0 {
        -1
    } else if text.last() == '-' {
        text.len() - 1
    } else {
        last_dash(text.drop_last())
    }
}

/// What stands before the second-to-last dash, or everything where there are not two dashes.
pub open spec fn name_before_dashes(text: Seq<char>) -> Seq<char> {
    let release = last_dash(text);
    if release < 0 {
        text
    } else {
        let version = last_dash(text.take(release));
        if version < 0 {
            text
        } else {
            text.take(version)
        }
    }
}

/// The name of a source package: what stands in front of version, release and suffix.
pub open spec fn srpm_name(srpm: Seq<char>) -> Seq<char> {
    name_before_dashes(without_srpm_suffix(srpm))
}

proof fn lemma_last_dash_at(front: Seq<char>, back: Seq<char>)
    requires
        !back.contains('-'),
    ensures
        last_dash(front + seq!['-'] + back) == front.len(),
    decreases back.len(),
{
    let text = front + seq!['-'] + back;
    if back.len() > 0 {
        assert(text.last() == back.last());
        assert(back.contains(back.last()));
        let less = back.drop_last();
        assert forall|i: int| 0 <= i < less.len() implies #[trigger] less[i] != '-' by {
            assert(back.contains(back[i]));
        }
        assert(text.drop_last() =~= front + seq!['-'] + less);
        lemma_last_dash_at(front, less);
    }
}

/// The name of a source package comes back from its name, version and release, with the
/// suffix or without it, whatever dashes the name has.
pub proof fn name_of_name_version_release(
    name: Seq<char>,
    version: Seq<char>,
    release: Seq<char>,
)
    requires
        !version.contains('-'),
        !release.contains('-'),
    ensures
        srpm_name(name + seq!['-'] + version + seq!['-'] + release) == name,
        srpm_name(name + seq!['-'] + version + seq!['-'] + release + srpm_suffix()) == name,
{
    lemma_nvr(name, version, release);
    let suffix = srpm_suffix();
    let nvr = name + seq!['-'] + version + seq!['-'] + release;
    assert((nvr + suffix).take((nvr + suffix).len() - suffix.len()) =~= nvr);
    assert(suffix.is_suffix_of(nvr + suffix)) by {
        let whole = nvr + suffix;
        assert(whole.subrange(whole.len() - suffix.len(), whole.len() as int) =~= suffix);
    }
    if suffix.is_suffix_of(nvr) {
        reveal_strlit(".src.rpm");
        assert(release.len() >= suffix.len()) by {
            if release.len() < suffix.len() {
                let at = nvr.len() - release.len() - 1;
                assert(nvr[at] == '-');
                let k = at - (nvr.len() - suffix.len());
                assert(suffix[k] == nvr[at]);
                assert(suffix =~= seq!['.', 's', 'r', 'c', '.', 'r', 'p', 'm']);
            }
        }
        let short = release.take(release.len() - suffix.len());
        assert forall|i: int| 0 <= i < short.len() implies #[trigger] short[i] != '-' by {
            assert(release.contains(release[i]));
        }
        assert(nvr.take(nvr.len() - suffix.len()) =~= name + seq!['-'] + version + seq!['-']
            + short);
        lemma_nvr(name, version, short);
    }
}

proof fn lemma_nvr(name: Seq<char>, version: Seq<char>, release: Seq<char>)
    requires
        !version.contains('-'),
        !release.contains('-'),
    ensures
        name_before_dashes(name + seq!['-'] + version + seq!['-'] + release) == name,
{
    let nv = name + seq!['-'] + version;
    let nvr = nv + seq!['-'] + release;
    lemma_last_dash_at(nv, release);
    assert(nvr.take(nv.len() as int) =~= nv);
    lemma_last_dash_at(name, version);
    assert(nvr.take(name.len() as int) =~= name);
}

/// The characters of a text.
fn char_list(text: &str) -> (r: Vec<char>)
    ensures
        r@ == text@,
{
    let mut r: Vec<char> = Vec::new();
    for c in it: text.chars()
        invariant
            it.seq() == text@,
            r@ == text@.take(it.index()),
    {
        r.push(c);
        assert(text@.take(it.index() + 1) =~= text@.take(it.index()).push(c));
    }
    assert(text@.take(text@.len() as int) =~= text@);
    r
}

/// The place of the last dash among the first `end` characters, if there is one.
fn find_last_dash(chars: &Vec<char>, end: usize) -> (r: Option<usize>)
    requires
        end <= chars@.len(),
    ensures
        r is None <==> last_dash(chars@.take(end as int)) < 0,
        r is Some ==> r->0 == last_dash(chars@.take(end as int)) && r->0 < end,
{
    let mut i: usize = end;
    while i > 0
        invariant
            i <= end <= chars@.len(),
            last_dash(chars@.take(end as int)) == last_dash(chars@.take(i as int)),
        decreases i,
    {
        assert(chars@.take(i as int).last() == chars@[i - 1]);
        if chars[i - 1] == '-' {
            return Some(i - 1);
        }
        assert(chars@.take(i as int).drop_last() =~= chars@.take(i - 1));
        i -= 1;
    }
    None
}

/// Parse the SRPM name from a full SRPM filename.
///
/// e.g., "bash-5.2.15-5.fc40.src.rpm" -> "bash"
pub fn parse_srpm_name(srpm: &str) -> (r: &str)
    ensures
        r@ == srpm_name(srpm@),
{
    let chars = char_list(srpm);
    let suffix = char_list(".src.rpm");
    let mut end: usize = chars.len();
    if suffix.len() <= chars.len() {
        let start: usize = chars.len() - suffix.len();
        let mut k: usize = 0;
        while k < suffix.len() && chars[start + k] == suffix[k]
            invariant
                start + suffix.len() == chars.len(),
                k <= suffix@.len(),
                forall|j: int| 0 <= j < k ==> chars@[start + j] == #[trigger] suffix@[j],
            decreases suffix@.len() - k,
        {
            k += 1;
        }
        if k == suffix.len() {
            assert(suffix@.is_suffix_of(chars@)) by {
                assert(chars@.subrange(start as int, chars@.len() as int) =~= suffix@);
            }
            end = start;
        } else {
            assert(!suffix@.is_suffix_of(chars@)) by {
                if suffix@.is_suffix_of(chars@) {
                    assert(chars@.subrange(start as int, chars@.len() as int)[k as int]
                        == suffix@[k as int]);
                }
            }
        }
    }
    let ghost text = without_srpm_suffix(srpm@);
    assert(text =~= chars@.take(end as int));
    match find_last_dash(&chars, end) {
        None => {},
        Some(release) => {
            assert(text.take(release as int) =~= chars@.take(release as int));
            match find_last_dash(&chars, release) {
                None => {},
                Some(version) => {
                    assert(text.take(version as int) =~= srpm@.subrange(0, version as int));
                    return srpm.substring_char(0, version);
                },
            }
        },
    }
    assert(text =~= srpm@.subrange(0, end as int));
    srpm.substring_char(0, end)
}

/// With `.src.rpm` behind it or without it, name, version and release give back the name,
/// however many dashes it has, and a text with fewer than two dashes is given back whole.
pub proof fn only_version_and_release_are_taken_off(
    name: Seq<char>,
    version: Seq<char>,
    release: Seq<char>,
    text: Seq<char>,
)
    requires
        forall|i: int| 0 <= i < version.len() ==> #[trigger] version[i] != '-',
        forall|i: int| 0 <= i < release.len() ==> #[trigger] release[i] != '-',
        forall|i: int, j: int|
            0 <= i < j < text.len() ==> !(#[trigger] text[i] == '-' && #[trigger] text[j] == '-'),
    ensures
        srpm_name(name + seq!['-'] + version + seq!['-'] + release) == name,
        srpm_name(name + seq!['-'] + version + seq!['-'] + release + ".src.rpm"@) == name,
        srpm_name(text + ".src.rpm"@) == text,
        !".src.rpm"@.is_suffix_of(text) ==> srpm_name(text) == text,
{
    name_of_name_version_release(name, version, release);
    assert(srpm_suffix() == ".src.rpm"@);
    let suffix = ".src.rpm"@;
    let whole = text + suffix;
    assert(whole.take(whole.len() - suffix.len()) =~= text);
    assert(whole.subrange(whole.len() - suffix.len(), whole.len() as int) =~= suffix);
    assert(suffix.is_suffix_of(whole));
    lemma_dash_is_there(text);
    let release = last_dash(text);
    if release >= 0 {
        lemma_dash_is_there(text.take(release));
        let version = last_dash(text.take(release));
        if version >= 0 {
            assert(text.take(release)[version] == text[version]);
        }
    }
}

proof fn lemma_dash_is_there(text: Seq<char>)
    ensures
        last_dash(text) < text.len(),
        last_dash(text) >= 0 ==> text[last_dash(text)] == '-',
    decreases text.len(),
{
    if text.len() > 0 && text.last() != '-' {
        lemma_dash_is_there(text.drop_last());
    }
}

/// Whether a text is made of name, version and release, with dashes between them and none in
/// version and release.
pub open spec fn is_nvr(
    text: Seq<char>,
    name: Seq<char>,
    version: Seq<char>,
    release: Seq<char>,
) -> bool {
    &&& text == name + seq!['-'] + version + seq!['-'] + release
    &&& forall|i: int| 0 <= i < version.len() ==> #[trigger] version[i] != '-'
    &&& forall|i: int| 0 <= i < release.len() ==> #[trigger] release[i] != '-'
}

/// Whether that is the name in a text: what stands before version and release, or all of it
/// where it has fewer than two dashes.
pub open spec fn is_name_in(text: Seq<char>, name: Seq<char>) -> bool {
    ||| exists|version: Seq<char>, release: Seq<char>| #[trigger]
        is_nvr(text, name, version, release)
    ||| name == text && forall|i: int, j: int|
        0 <= i < j < text.len() ==> !(#[trigger] text[i] == '-' && #[trigger] text[j] == '-')
}

proof fn lemma_none_after_last_dash(text: Seq<char>)
    ensures
        forall|i: int| last_dash(text) < i < text.len() ==> #[trigger] text[i] != '-',
        last_dash(text) >= -1,
    decreases text.len(),
{
    if text.len() > 0 && text.last() != '-' {
        let front = text.drop_last();
        lemma_none_after_last_dash(front);
        assert forall|i: int| last_dash(text) < i < text.len() implies #[trigger] text[i] != '-' by {
            if i < front.len() {
                assert(front[i] == text[i]);
            }
        }
    }
}

proof fn lemma_name_in(text: Seq<char>)
    ensures
        is_name_in(text, name_before_dashes(text)),
{
    lemma_dash_is_there(text);
    lemma_none_after_last_dash(text);
    let r = last_dash(text);
    if r >= 0 {
        let front = text.take(r);
        lemma_dash_is_there(front);
        lemma_none_after_last_dash(front);
        let v = last_dash(front);
        if v >= 0 {
            let name = text.take(v);
            let version = text.subrange(v + 1, r);
            let release = text.skip(r + 1);
            assert forall|i: int| 0 <= i < version.len() implies #[trigger] version[i] != '-' by {
                assert(version[i] == front[v + 1 + i]);
            }
            assert forall|i: int| 0 <= i < release.len() implies #[trigger] release[i] != '-' by {
                assert(release[i] == text[r + 1 + i]);
            }
            assert(front[v] == text[v]);
            assert(text =~= name + seq!['-'] + version + seq!['-'] + release);
            assert(is_nvr(text, name, version, release));
        } else {
            assert forall|i: int, j: int| 0 <= i < j < text.len() implies !(#[trigger] text[i]
                == '-' && #[trigger] text[j] == '-') by {
                if j <= r {
                    assert(front[i] == text[i]);
                }
            }
        }
    }
}

/// The name of a source package is the only one in its file name without the `.src.rpm` at the
/// end, whether that is there or not.
pub proof fn source_name_is_the_name_in_the_text(srpm: Seq<char>, text: Seq<char>, name: Seq<char>)
    requires
        srpm == text + ".src.rpm"@ || (srpm == text && !".src.rpm"@.is_suffix_of(srpm)),
    ensures
        is_name_in(text, name) <==> srpm_name(srpm) == name,
{
    let suffix = ".src.rpm"@;
    if srpm == text + suffix {
        assert(srpm.take(srpm.len() - suffix.len()) =~= text);
        assert(srpm.subrange(srpm.len() - suffix.len(), srpm.len() as int) =~= suffix);
        assert(suffix.is_suffix_of(srpm));
    }
    assert(without_srpm_suffix(srpm) == text);
    lemma_name_in(text);
    if is_name_in(text, name) {
        if exists|version: Seq<char>, release: Seq<char>| #[trigger]
            is_nvr(text, name, version, release) {
            let (version, release) = choose|version: Seq<char>, release: Seq<char>| #[trigger]
                is_nvr(text, name, version, release);
            lemma_nvr(name, version, release);
        } else {
            only_version_and_release_are_taken_off(seq![], seq![], seq![], text);
        }
    }
}

} // verus!
