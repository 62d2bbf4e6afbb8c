//! Which files are components, and what the files that a run writes are called.
use crate::text::{
    append_number, chars_of, decimal, ends_with, holds, law_decimal_reads_back, read_decimal,
    same_text, stands_at, text_ends_with, text_holds,
};
use vstd::prelude::*;
use vstd::string::*;

verus! {

/// What a directory listing says of one entry: whether it is a file, its name
/// and its extension as text, and its name as bytes. A name that is not text is
/// empty as text.
#[derive(Clone, Debug, PartialEq, Eq)]
pub struct DirectoryEntry {
    pub is_file: bool,
    pub name: String,
    pub extension: Option<String>,
    pub bytes: Vec<u8>,
}

/// Whether a name is that of a mask image that a run has written.
pub open spec fn names_mask_output(name: Seq<char>) -> bool {
    holds(name, "-matches-"@) && ends_with(name, ".png"@)
}

/// Whether a name is that of a mask image that a run has written.
pub fn is_mask_output(name: &str) -> (r: bool)
    ensures
        r == names_mask_output(name@),
{
    let chars: Vec<char> = chars_of(name);
    text_holds(&chars, &chars_of("-matches-")) && text_ends_with(&chars, &chars_of(".png"))
}

/// The name of the mask image of a component.
pub open spec fn mask_file(stem: Seq<char>, count: nat) -> Seq<char> {
    stem + "-matches-"@ + decimal(count) + ".png"@
}

/// The name of the mask image of a component, of which `count` matches were found.
pub fn mask_file_name(stem: &str, count: usize) -> (name: String)
    ensures
        name@ == mask_file(stem@, count as nat),
{
    let mut name: String = String::from_str(stem);
    name.append("-matches-");
    append_number(&mut name, count as u64);
    name.append(".png");
    name
}

/// What `str::to_lowercase` makes of a text.
pub uninterp spec fn lower_case(text: Seq<char>) -> Seq<char>;

/// Whether a text is ASCII.
pub open spec fn ascii_text(text: Seq<char>) -> bool {
    forall|i: int| 0 <= i < text.len() ==> (#[trigger] text[i] as int) < 128
}

/// An ASCII character in lower case.
pub open spec fn ascii_lower(c: char) -> char {
    if 'A' <= c <= 'Z' {
        (c as int + 32) as char
    } else {
        c
    }
}

/// An ASCII text in lower case.
pub open spec fn ascii_lower_case(text: Seq<char>) -> Seq<char> {
    text.map_values(|c: char| ascii_lower(c))
}

/// A text in lower case, by `str::to_lowercase`.
///
/// Trusted: the result depends on the text alone, and of an ASCII text it is the
/// text with `A` to `Z` replaced by `a` to `z`. What it is of other texts follows
/// from the Unicode tables, and is left unsaid.
#[verifier::external_body]
fn lowercase(text: &str) -> (lower: String)
    ensures
        lower@ == lower_case(text@),
        ascii_text(text@) ==> lower@ == ascii_lower_case(text@),
{
    text.to_lowercase()
}

/// Whether an extension in lower case is that of a picture.
pub open spec fn picture_extension(lower: Seq<char>) -> bool {
    lower == "png"@ || lower == "jpg"@ || lower == "jpeg"@ || lower == "webp"@ || lower == "bmp"@
}

/// Whether an extension in lower case is that of a picture.
pub fn is_picture_extension(lower: &String) -> (r: bool)
    ensures
        r == picture_extension(lower@),
{
    same_text(lower, "png") || same_text(lower, "jpg") || same_text(lower, "jpeg") || same_text(
        lower,
        "webp",
    ) || same_text(lower, "bmp")
}

/// Whether a directory entry is a component: a picture file that no earlier run
/// has written.
pub open spec fn component(entry: DirectoryEntry) -> bool {
    &&& entry.is_file
    &&& !names_mask_output(entry.name@)
    &&& entry.extension matches Some(extension) && picture_extension(lower_case(extension@))
}

/// Whether the extension of an entry, if it has one, is ASCII.
pub open spec fn ascii_extension(entry: DirectoryEntry) -> bool {
    entry.extension matches Some(extension) ==> ascii_text(extension@)
}

/// Whether a directory entry with an ASCII extension is a component: `png`,
/// `jpg`, `jpeg`, `webp` and `bmp` count, in lower case, upper case or both.
pub open spec fn ascii_component(entry: DirectoryEntry) -> bool {
    &&& entry.is_file
    &&& !names_mask_output(entry.name@)
    &&& entry.extension matches Some(extension) && picture_extension(
        ascii_lower_case(extension@),
    )
}

/// Whether a directory entry is a component.
pub fn is_component(entry: &DirectoryEntry) -> (r: bool)
    ensures
        r == component(*entry),
        ascii_extension(*entry) ==> r == ascii_component(*entry),
{
    if !entry.is_file || is_mask_output(entry.name.as_str()) {
        return false;
    }
    match &entry.extension {
        Some(extension) => is_picture_extension(&lowercase(extension.as_str())),
        None => false,
    }
}

/// The numbers of the components among the first `n` entries, in order.
pub open spec fn components_among(entries: Seq<DirectoryEntry>, n: nat) -> Seq<usize>
    decreases n,
{
    if n == 0 {
        Seq::empty()
    } else {
        let before = components_among(entries, (n - 1) as nat);
        if component(entries[n - 1]) {
            before.push((n - 1) as usize)
        } else {
            before
        }
    }
}

/// Whether `a` comes before `b` by what stands at place `i`: they agree up to
/// there, and then `a` ends, or has the smaller byte.
pub open spec fn smaller_at(a: Seq<u8>, b: Seq<u8>, i: int) -> bool {
    &&& 0 <= i <= a.len()
    &&& i < b.len()
    &&& forall|j: int| 0 <= j < i ==> a[j] == b[j]
    &&& i < a.len() ==> a[i] < b[i]
}

/// Whether `a` comes before `b` in a dictionary that goes by bytes.
pub open spec fn precedes(a: Seq<u8>, b: Seq<u8>) -> bool {
    exists|i: int| smaller_at(a, b, i)
}

/// Whether `a` comes before `b`.
fn comes_before(a: &Vec<u8>, b: &Vec<u8>) -> (r: bool)
    ensures
        r == precedes(a@, b@),
{
    let mut i: usize = 0;
    while i < a.len() && i < b.len()
        invariant
            i <= a.len(),
            i <= b.len(),
            forall|j: int| 0 <= j < i ==> a@[j] == b@[j],
            forall|j: int| 0 <= j < i ==> !smaller_at(a@, b@, j),
        decreases a.len() - i,
    {
        let c: u8 = a[i];
        let d: u8 = b[i];
        if c < d {
            assert(smaller_at(a@, b@, i as int));
            return true;
        }
        if d < c {
            assert forall|j: int| !smaller_at(a@, b@, j) by {
                if j > i {
                    assert(a@[i as int] != b@[i as int]);
                }
            }
            return false;
        }
        assert(!smaller_at(a@, b@, i as int));
        i = i + 1;
    }
    if i < b.len() {
        assert(smaller_at(a@, b@, i as int));
        true
    } else {
        false
    }
}

/// How many bytes two names have in common at their start.
proof fn lemma_common_start(a: Seq<u8>, b: Seq<u8>, from: int) -> (n: int)
    requires
        0 <= from <= a.len(),
        from <= b.len(),
        forall|j: int| 0 <= j < from ==> a[j] == b[j],
    ensures
        from <= n <= a.len(),
        n <= b.len(),
        forall|j: int| 0 <= j < n ==> a[j] == b[j],
        n < a.len() && n < b.len() ==> a[n] != b[n],
    decreases a.len() - from,
{
    if from < a.len() && from < b.len() && a[from] == b[from] {
        lemma_common_start(a, b, from + 1)
    } else {
        from
    }
}

/// A name that comes before another comes before any third one, or the third
/// one comes before the other.
proof fn lemma_precedes_splits(a: Seq<u8>, b: Seq<u8>, c: Seq<u8>)
    requires
        precedes(a, c),
    ensures
        precedes(a, b) || precedes(b, c),
{
    let i = choose|i: int| smaller_at(a, c, i);
    let n = lemma_common_start(b, a, 0);
    let at = if n < i {
        n
    } else {
        i
    };
    assert(smaller_at(a, b, at) || smaller_at(b, c, at));
}

/// Of two names at most one comes before the other.
proof fn lemma_precedes_both_ways(a: Seq<u8>, b: Seq<u8>)
    ensures
        !(precedes(a, b) && precedes(b, a)),
{
    if precedes(a, b) && precedes(b, a) {
        let i = choose|i: int| smaller_at(a, b, i);
        let j = choose|j: int| smaller_at(b, a, j);
        if i < j {
            assert(b[i] == a[i]);
        } else if j < i {
            assert(a[j] == b[j]);
        }
    }
}

/// No name comes before itself.
proof fn lemma_precedes_not_itself(a: Seq<u8>)
    ensures
        !precedes(a, a),
{
}

/// The name of the entry with the given number, as bytes.
pub open spec fn name_of(entries: Seq<DirectoryEntry>, k: usize) -> Seq<u8> {
    entries[k as int].bytes@
}

/// `k` put into a list of entries in front of all at its end whose names come
/// after its own.
pub open spec fn filed(entries: Seq<DirectoryEntry>, s: Seq<usize>, k: usize) -> Seq<usize>
    decreases s.len(),
{
    if s.len() == 0 || !precedes(name_of(entries, k), name_of(entries, s.last())) {
        s.push(k)
    } else {
        filed(entries, s.drop_last(), k).push(s.last())
    }
}

/// A list of entries in the order of their names, those of one name in their
/// first order.
pub open spec fn by_name(entries: Seq<DirectoryEntry>, s: Seq<usize>) -> Seq<usize>
    decreases s.len(),
{
    if s.len() == 0 {
        s
    } else {
        filed(entries, by_name(entries, s.drop_last()), s.last())
    }
}

/// Puts an entry into a list in the order of names.
fn put_in_order(entries: &Vec<DirectoryEntry>, s: &mut Vec<usize>, k: usize)
    requires
        k < entries@.len(),
        forall|j: int| 0 <= j < old(s)@.len() ==> #[trigger] old(s)@[j] < entries@.len(),
    ensures
        final(s)@ == filed(entries@, old(s)@, k),
        forall|j: int| 0 <= j < final(s)@.len() ==> #[trigger] final(s)@[j] < entries@.len(),
{
    let ghost was = s@;
    let name: &Vec<u8> = &entries[k].bytes;
    let mut at: usize = s.len();
    assert(filed(entries@, was, k) =~= filed(entries@, was.take(at as int), k) + was.skip(at as int)) by {
        assert(was.take(at as int) =~= was);
    }
    while at > 0 && comes_before(name, &entries[s[at - 1]].bytes)
        invariant
            k < entries@.len(),
            name@ == name_of(entries@, k),
            s@ == was,
            forall|j: int| 0 <= j < s@.len() ==> #[trigger] s@[j] < entries@.len(),
            at <= s@.len(),
            filed(entries@, was, k) == filed(entries@, was.take(at as int), k) + was.skip(at as int),
        decreases at,
    {
        at = at - 1;
        proof {
            assert(was.take(at + 1).drop_last() =~= was.take(at as int));
            assert(was.take(at + 1).last() == was[at as int]);
            assert(filed(entries@, was.take(at as int), k).push(was[at as int]) + was.skip(at + 1)
                =~= filed(entries@, was.take(at as int), k) + was.skip(at as int));
        }
    }
    s.insert(at, k);
    proof {
        assert(at > 0 ==> was.take(at as int).last() == was[at - 1]);
        assert(filed(entries@, was.take(at as int), k) =~= was.take(at as int).push(k));
        assert(s@ =~= was.take(at as int).push(k) + was.skip(at as int));
    }
}

/// The numbers of the components in a directory listing, in the order of their
/// names.
pub fn component_files(entries: &Vec<DirectoryEntry>) -> (found: Vec<usize>)
    ensures
        found@ == by_name(entries@, components_among(entries@, entries@.len())),
        forall|j: int| 0 <= j < found@.len() ==> #[trigger] found@[j] < entries@.len(),
        forall|k: usize|
            k < entries@.len() && ascii_extension(entries@[k as int]) ==> (
            #[trigger] found@.contains(k) <==> ascii_component(entries@[k as int])),
        found@.no_duplicates(),
        forall|k: usize|
            k < entries@.len() ==> (#[trigger] found@.contains(k) <==> component(
                entries@[k as int],
            )),
        forall|i: int, j: int|
            0 <= i < j < found@.len() ==> !precedes(
                entries@[#[trigger] found@[j] as int].bytes@,
                entries@[#[trigger] found@[i] as int].bytes@,
            ),
{
    let mut found: Vec<usize> = Vec::new();
    let mut i: usize = 0;
    while i < entries.len()
        invariant
            i <= entries.len(),
            found@ == by_name(entries@, components_among(entries@, i as nat)),
            forall|j: int| 0 <= j < found@.len() ==> #[trigger] found@[j] < entries@.len(),
            forall|j: int|
                0 <= j < i && ascii_extension(entries@[j]) ==> #[trigger] component(entries@[j])
                    == ascii_component(entries@[j]),
        decreases entries.len() - i,
    {
        if is_component(&entries[i]) {
            put_in_order(entries, &mut found, i);
            proof {
                let before = components_among(entries@, i as nat);
                assert(before.push(i).drop_last() =~= before);
            }
        }
        i = i + 1;
    }
    proof {
        let listed = components_among(entries@, entries@.len());
        law_components_are_listed(entries@, entries@.len());
        law_components_in_order(entries@, listed);
        assert forall|k: usize|
            k < entries@.len() && ascii_extension(entries@[k as int]) implies (
        #[trigger] found@.contains(k) <==> ascii_component(entries@[k as int])) by {
            broadcast use vstd::seq_lib::group_to_multiset_ensures;

            assert(found@.contains(k) <==> found@.to_multiset().count(k) > 0);
            assert(listed.contains(k) <==> listed.to_multiset().count(k) > 0);
            assert(component(entries@[k as int]) == ascii_component(entries@[k as int]));
        }
        assert forall|k: usize| k < entries@.len() implies (#[trigger] found@.contains(k)
            <==> component(entries@[k as int])) by {
            broadcast use vstd::seq_lib::group_to_multiset_ensures;

            assert(found@.contains(k) <==> found@.to_multiset().count(k) > 0);
            assert(listed.contains(k) <==> listed.to_multiset().count(k) > 0);
        }
        listed.lemma_multiset_has_no_duplicates();
        found@.lemma_multiset_has_no_duplicates_conv();
        assert forall|i: int, j: int| 0 <= i < j < found@.len() implies !precedes(
            entries@[#[trigger] found@[j] as int].bytes@,
            entries@[#[trigger] found@[i] as int].bytes@,
        ) by {
            assert(!precedes(name_of(entries@, found@[j]), name_of(entries@, found@[i])));
        }
    }
    found
}

/// Whether no entry stands before one whose name comes earlier.
pub open spec fn in_order(entries: Seq<DirectoryEntry>, s: Seq<usize>) -> bool {
    forall|i: int, j: int|
        0 <= i < j < s.len() ==> !precedes(
            name_of(entries, #[trigger] s[j]),
            name_of(entries, #[trigger] s[i]),
        )
}

proof fn lemma_filed(entries: Seq<DirectoryEntry>, s: Seq<usize>, k: usize)
    requires
        in_order(entries, s),
    ensures
        in_order(entries, filed(entries, s, k)),
        filed(entries, s, k).to_multiset() == s.push(k).to_multiset(),
        filed(entries, s, k).len() == s.len() + 1,
        filed(entries, s, k).last() == k || (s.len() > 0 && filed(entries, s, k).last()
            == s.last()),
    decreases s.len(),
{
    broadcast use vstd::seq_lib::group_to_multiset_ensures;

    let name = name_of(entries, k);
    if s.len() == 0 || !precedes(name, name_of(entries, s.last())) {
        let all = s.push(k);
        assert forall|i: int, j: int| 0 <= i < j < all.len() implies !precedes(
            name_of(entries, #[trigger] all[j]),
            name_of(entries, #[trigger] all[i]),
        ) by {
            if j == s.len() {
                if precedes(name, name_of(entries, s[i])) {
                    lemma_precedes_splits(name, name_of(entries, s.last()), name_of(entries, s[i]));
                    if i == s.len() - 1 {
                        lemma_precedes_not_itself(name_of(entries, s[i]));
                    } else {
                        assert(!precedes(name_of(entries, s[s.len() - 1]), name_of(entries, s[i])));
                    }
                }
            }
        }
    } else {
        let few = s.drop_last();
        lemma_filed(entries, few, k);
        let front = filed(entries, few, k);
        let all = front.push(s.last());
        let last = name_of(entries, s.last());
        assert(s =~= few.push(s.last()));
        assert(all.to_multiset() =~= s.push(k).to_multiset());
        assert forall|i: int, j: int| 0 <= i < j < all.len() implies !precedes(
            name_of(entries, #[trigger] all[j]),
            name_of(entries, #[trigger] all[i]),
        ) by {
            if j == front.len() {
                let x = front[i];
                assert(front.to_multiset().count(x) > 0) by {
                    assert(front.contains(x));
                }
                assert(few.push(k).contains(x));
                let n = choose|n: int| 0 <= n < few.push(k).len() && few.push(k)[n] == x;
                if n < few.len() {
                    assert(!precedes(name_of(entries, s[s.len() - 1]), name_of(entries, s[n])));
                } else {
                    lemma_precedes_both_ways(name, last);
                }
            }
        }
    }
}

/// The components of a directory come in the order of their names, and each
/// component of the listing comes once.
pub proof fn law_components_in_order(entries: Seq<DirectoryEntry>, s: Seq<usize>)
    ensures
        in_order(entries, by_name(entries, s)),
        by_name(entries, s).to_multiset() == s.to_multiset(),
    decreases s.len(),
{
    broadcast use vstd::seq_lib::group_to_multiset_ensures;

    if s.len() > 0 {
        law_components_in_order(entries, s.drop_last());
        lemma_filed(entries, by_name(entries, s.drop_last()), s.last());
        assert(s =~= s.drop_last().push(s.last()));
    }
}

/// A name without the `.png` at its end, however often it stands there.
pub open spec fn without_png(name: Seq<char>) -> Seq<char>
    decreases name.len(),
{
    if ends_with(name, ".png"@) {
        proof {
            reveal_strlit(".png");
        }
        without_png(name.take(name.len() - ".png"@.len()))
    } else {
        name
    }
}

/// A name without the `.png` at its end, however often it stands there.
pub fn short_name(name: &str) -> (short: String)
    ensures
        short@ == without_png(name@),
{
    let chars: Vec<char> = chars_of(name);
    let suffix: Vec<char> = chars_of(".png");
    let mut end: usize = chars.len();
    let mut rest: Vec<char> = chars_of(name);
    proof {
        reveal_strlit(".png");
        assert(name@.take(end as int) =~= name@);
    }
    while text_ends_with(&rest, &suffix)
        invariant
            chars@ == name@,
            suffix@ == ".png"@,
            suffix@.len() == 4,
            end <= chars@.len(),
            rest@ == name@.take(end as int),
            without_png(name@) == without_png(name@.take(end as int)),
        decreases end,
    {
        let ghost had = rest@;
        end = end - 4;
        rest.truncate(end);
        assert(rest@ =~= name@.take(end as int));
        assert(had.take(had.len() - 4) =~= name@.take(end as int));
    }
    String::from_str(name.substring_char(0, end))
}

/// A run takes its own mask images for such: they are cleared away by the next
/// one, and never matched as components.
pub proof fn law_mask_files_are_no_components(entry: DirectoryEntry, stem: Seq<char>, count: nat)
    requires
        entry.name@ == mask_file(stem, count),
    ensures
        names_mask_output(entry.name@),
        !component(entry),
{
    let name = entry.name@;
    let middle = "-matches-"@;
    let end = ".png"@;
    assert(name.subrange(stem.len() as int, stem.len() as int + middle.len()) =~= middle);
    assert(stands_at(name, middle, stem.len() as int));
    assert(name.subrange(name.len() - end.len(), name.len() as int) =~= end);
}

/// The components of a listing are its entries that are components, each once.
pub proof fn law_components_are_listed(entries: Seq<DirectoryEntry>, n: nat)
    requires
        n <= entries.len() <= usize::MAX,
    ensures
        components_among(entries, n).no_duplicates(),
        forall|k: usize|
            components_among(entries, n).contains(k) <==> k < n && component(entries[k as int]),
    decreases n,
{
    if n > 0 {
        let before = components_among(entries, (n - 1) as nat);
        let all = components_among(entries, n);
        law_components_are_listed(entries, (n - 1) as nat);
        if component(entries[n - 1]) {
            let last = (n - 1) as usize;
            assert(!before.contains(last));
            assert forall|k: usize| all.contains(k) <==> k < n && component(entries[k as int]) by {
                if before.contains(k) {
                    let i = choose|i: int| 0 <= i < before.len() && before[i] == k;
                    assert(all[i] == k);
                }
                if k == last {
                    assert(all[before.len() as int] == k);
                }
                if all.contains(k) {
                    let i = choose|i: int| 0 <= i < all.len() && all[i] == k;
                    if i < before.len() {
                        assert(before[i] == k);
                    }
                }
            }
            assert forall|i: int, j: int|
                0 <= i < all.len() && 0 <= j < all.len() && i != j implies all[i] != all[j] by {
                if i < before.len() && j < before.len() {
                    assert(before[i] != before[j]);
                } else if i < before.len() {
                    assert(before.contains(before[i]));
                } else {
                    assert(before.contains(before[j]));
                }
            }
        }
    }
}

/// A short name is the start of the name, and does not end with `.png`.
pub proof fn law_short_name_has_no_ending(name: Seq<char>)
    ensures
        !ends_with(without_png(name), ".png"@),
        without_png(name).len() <= name.len(),
        without_png(name) == name.take(without_png(name).len() as int),
    decreases name.len(),
{
    if ends_with(name, ".png"@) {
        reveal_strlit(".png");
        let rest = name.take(name.len() - ".png"@.len());
        law_short_name_has_no_ending(rest);
        assert(rest.take(without_png(rest).len() as int) =~= name.take(
            without_png(rest).len() as int,
        ));
    } else {
        assert(name.take(name.len() as int) =~= name);
    }
}

/// A short name does not depend on how often `.png` stands at the end of a name,
/// and is the name itself where it does not stand there.
pub proof fn law_short_name_drops_endings(name: Seq<char>)
    ensures
        without_png(name + ".png"@) == without_png(name),
        !ends_with(name, ".png"@) ==> without_png(name) == name,
{
    let more = name + ".png"@;
    reveal_strlit(".png");
    assert(more.subrange(more.len() - 4, more.len() as int) =~= ".png"@);
    assert(more.take(more.len() - 4) =~= name);
}

/// Of two different names exactly one comes before the other, and no name comes
/// before itself. A name comes before every longer one that it starts, and where
/// two names first differ the smaller byte comes first.
pub proof fn law_names_compare(a: Seq<u8>, b: Seq<u8>, n: int)
    ensures
        !precedes(a, a),
        a != b ==> (precedes(a, b) <==> !precedes(b, a)),
        a.len() < b.len() && a == b.take(a.len() as int) ==> precedes(a, b),
        0 <= n < a.len() && n < b.len() && a.take(n) == b.take(n) && a[n] < b[n] ==> precedes(a, b),
{
    lemma_precedes_not_itself(a);
    lemma_precedes_both_ways(a, b);
    let i = lemma_common_start(a, b, 0);
    if i < a.len() && i < b.len() {
        assert(smaller_at(a, b, i) || smaller_at(b, a, i));
    } else if i < b.len() {
        assert(smaller_at(a, b, i));
    } else if i < a.len() {
        assert(smaller_at(b, a, i));
    } else {
        assert(a =~= b);
    }
    if a.len() < b.len() && a == b.take(a.len() as int) {
        assert forall|j: int| 0 <= j < a.len() implies a[j] == b[j] by {
            assert(a[j] == b.take(a.len() as int)[j]);
        }
        assert(smaller_at(a, b, a.len() as int));
    }
    if 0 <= n < a.len() && n < b.len() && a.take(n) == b.take(n) && a[n] < b[n] {
        assert forall|j: int| 0 <= j < n implies a[j] == b[j] by {
            assert(a.take(n)[j] == b.take(n)[j]);
        }
        assert(smaller_at(a, b, n));
    }
}

/// What is told of a name as that of a mask image: `-matches-` stands somewhere in
/// it, and `.png` at its end.
pub proof fn law_mask_output_by_name(name: Seq<char>)
    ensures
        names_mask_output(name) <==> name.len() >= 4 && name.subrange(
            name.len() - 4,
            name.len() as int,
        ) == ".png"@ && exists|i: int|
            0 <= i <= name.len() - 9 && (#[trigger] name.subrange(i, i + 9)) == "-matches-"@,
{
    reveal_strlit(".png");
    reveal_strlit("-matches-");
    if names_mask_output(name) {
        let i = choose|i: int| stands_at(name, "-matches-"@, i);
        assert(name.subrange(i, i + 9) == "-matches-"@);
    }
    if exists|i: int|
        0 <= i <= name.len() - 9 && (#[trigger] name.subrange(i, i + 9)) == "-matches-"@ {
        let i = choose|i: int|
            0 <= i <= name.len() - 9 && (#[trigger] name.subrange(i, i + 9)) == "-matches-"@;
        assert(stands_at(name, "-matches-"@, i));
    }
}

/// The name of a mask image starts with the stem, ends with `.png`, and tells the
/// number of matches in between.
pub proof fn law_mask_file_tells_count(stem: Seq<char>, count: nat)
    ensures
        ({
            let name = mask_file(stem, count);
            let n = stem.len() as int;
            &&& name.len() >= n + 14
            &&& name.take(n) == stem
            &&& name.subrange(n, n + 9) == "-matches-"@
            &&& read_decimal(name.subrange(n + 9, name.len() - 4)) == count
            &&& name.subrange(name.len() - 4, name.len() as int) == ".png"@
        }),
{
    let name = mask_file(stem, count);
    let n = stem.len() as int;
    reveal_strlit(".png");
    reveal_strlit("-matches-");
    law_decimal_reads_back(count);
    assert(name.take(n) =~= stem);
    assert(name.subrange(n, n + 9) =~= "-matches-"@);
    assert(name.subrange(n + 9, name.len() - 4) =~= decimal(count));
    assert(name.subrange(name.len() - 4, name.len() as int) =~= ".png"@);
}

/// The extensions of pictures, and what lower case makes of an ASCII character.
pub proof fn law_picture_extensions(lower: Seq<char>, c: char)
    ensures
        picture_extension(lower) <==> (lower == "png"@ || lower == "jpg"@ || lower == "jpeg"@
            || lower == "webp"@ || lower == "bmp"@),
        'A' <= c <= 'Z' ==> ascii_lower(c) as int - 'a' as int == c as int - 'A' as int,
        !('A' <= c <= 'Z') ==> ascii_lower(c) == c,
{
}

/// A file with a picture's extension, in lower case, is a component unless it is
/// named like a mask image; nothing but a file is one, and nothing without an
/// extension.
pub proof fn law_component_parts(entry: DirectoryEntry)
    ensures
        component(entry) ==> entry.is_file && entry.extension is Some && !names_mask_output(
            entry.name@,
        ),
        entry.is_file && !names_mask_output(entry.name@) && entry.extension is Some ==> (component(
            entry,
        ) <==> picture_extension(lower_case(entry.extension->0@))),
{
}

} // verus!
