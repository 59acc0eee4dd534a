//! Names that are derived from other names.

use crate::text::{char_vec, concat, concat3, contains_text, same_text, texts};
use vstd::prelude::*;

verus! {

/// Whether a character is uppercase.
pub uninterp spec fn uppercase(c: char) -> bool;

/// `char::is_uppercase`: whether the character has the `Uppercase` property of Unicode, which
/// depends on the character alone and holds of the letters `A` to `Z` and of no other ASCII
/// character.
pub assume_specification[ char::is_uppercase ](c: char) -> (r: bool)
    ensures
        r == uppercase(c),
        c <= '\u{7f}' ==> r == ('A' <= c && c <= 'Z'),
;

/// The lowercase letter of an uppercase ASCII letter; other characters stay.
pub open spec fn ascii_lower(c: char) -> char {
    if 'A' <= c && c <= 'Z' {
        ((c as u8) + 32) as u8 as char
    } else {
        c
    }
}

/// The lowercase letter of an uppercase ASCII letter; other characters stay.
pub fn lower(c: char) -> (r: char)
    ensures
        r == ascii_lower(c),
{
    if 'A' <= c && c <= 'Z' {
        ((c as u8) + 32) as char
    } else {
        c
    }
}

/// Words run together with capitals, as words in lowercase with underscores between them.
pub open spec fn snake(name: Seq<char>) -> Seq<char>
    decreases name.len(),
{
    if name.len() == 0 {
        Seq::empty()
    } else {
        let before = snake(name.drop_last());
        let c = name.last();
        if uppercase(c) {
            if name.len() > 1 {
                before.push('_').push(ascii_lower(c))
            } else {
                before.push(ascii_lower(c))
            }
        } else {
            before.push(c)
        }
    }
}

/// Words run together with capitals, as words in lowercase with underscores between them.
pub fn to_snake_case(name: &str) -> (r: String)
    ensures
        r@ == snake(name@),
{
    let chars = char_vec(name);
    let mut out = String::new();
    let mut i: usize = 0;
    assert(chars@.take(0) =~= Seq::<char>::empty());
    while i < chars.len()
        invariant
            i <= chars@.len(),
            out@ == snake(chars@.take(i as int)),
        decreases chars@.len() - i,
    {
        assert(chars@.take(i + 1).drop_last() =~= chars@.take(i as int));
        let c = chars[i];
        if c.is_uppercase() {
            if i > 0 {
                out.push('_');
            }
            out.push(lower(c));
        } else {
            out.push(c);
        }
        i += 1;
    }
    assert(chars@.take(i as int) =~= name@);
    out
}

/// The names that are made for a service: its stable name, which is also that of its accessor, and
/// the trait that holds the accessor.
pub struct ServiceNames {
    pub service: String,
    pub ext_trait: String,
}

/// The names that are made for the service type `name`.
pub fn service(name: &str) -> (r: ServiceNames)
    ensures
        r.service@ == snake(name@),
        r.ext_trait@ == name@ + "ServiceExt"@,
{
    ServiceNames { service: to_snake_case(name), ext_trait: concat(name, "ServiceExt") }
}

/// A text with underscores in place of hyphens.
pub open spec fn underscored(text: Seq<char>) -> Seq<char> {
    Seq::new(
        text.len(),
        |i: int|
            if text[i] == '-' {
                '_'
            } else {
                text[i]
            },
    )
}

/// The file name of the library of a package.
pub open spec fn library_file(package: Seq<char>, os: Seq<char>) -> Seq<char> {
    let stem = underscored(package);
    if os == "macos"@ {
        "lib"@ + stem + ".dylib"@
    } else if os == "windows"@ {
        stem + ".dll"@
    } else {
        "lib"@ + stem + ".so"@
    }
}

/// The file name of the library of a package on an operating system.
pub fn artifact_file(package: &str, os: &str) -> (r: String)
    ensures
        r@ == library_file(package@, os@),
{
    let chars = char_vec(package);
    let mut stem = String::new();
    let mut i: usize = 0;
    assert(underscored(package@).take(0) =~= Seq::<char>::empty());
    while i < chars.len()
        invariant
            i <= chars@.len(),
            chars@ == package@,
            stem@ == underscored(package@).take(i as int),
        decreases chars@.len() - i,
    {
        let c = chars[i];
        stem.push(
            if c == '-' {
                '_'
            } else {
                c
            },
        );
        assert(underscored(package@).take(i + 1) =~= underscored(package@).take(i as int).push(
            underscored(package@)[i as int],
        ));
        i += 1;
    }
    assert(underscored(package@).take(i as int) =~= underscored(package@));
    if same_text(os, "macos") {
        concat3("lib", stem.as_str(), ".dylib")
    } else if same_text(os, "windows") {
        concat(stem.as_str(), ".dll")
    } else {
        concat3("lib", stem.as_str(), ".so")
    }
}

/// The packages whose library is not among the files that are there.
pub open spec fn missing(packages: Seq<Seq<char>>, os: Seq<char>, present: Seq<Seq<char>>) -> Seq<
    Seq<char>,
>
    decreases packages.len(),
{
    if packages.len() == 0 {
        Seq::empty()
    } else {
        let rest = missing(packages.drop_last(), os, present);
        if present.contains(library_file(packages.last(), os)) {
            rest
        } else {
            rest.push(packages.last())
        }
    }
}

/// The packages that are to be built, since their library is not among the files that are there.
pub fn ensure_fixtures(packages: &Vec<String>, os: &str, present: &Vec<String>) -> (r: Vec<String>)
    ensures
        texts(r@) == missing(texts(packages@), os@, texts(present@)),
{
    let ghost all = texts(packages@);
    let mut out: Vec<String> = Vec::new();
    let mut i: usize = 0;
    assert(all.take(0) =~= Seq::<Seq<char>>::empty());
    assert(texts(out@) =~= Seq::<Seq<char>>::empty());
    while i < packages.len()
        invariant
            i <= packages@.len(),
            all == texts(packages@),
            texts(out@) == missing(all.take(i as int), os@, texts(present@)),
        decreases packages@.len() - i,
    {
        assert(all.take(i + 1).drop_last() =~= all.take(i as int));
        assert(all.take(i + 1).last() == packages@[i as int]@);
        let file = artifact_file(packages[i].as_str(), os);
        if !contains_text(present, file.as_str()) {
            let ghost before = texts(out@);
            out.push(packages[i].clone());
            assert(texts(out@) =~= before.push(packages@[i as int]@));
        }
        i += 1;
    }
    assert(all.take(i as int) =~= all);
    out
}

/// The arguments of the command that builds packages.
pub open spec fn build_args(packages: Seq<Seq<char>>) -> Seq<Seq<char>>
    decreases packages.len(),
{
    if packages.len() == 0 {
        seq!["build"@]
    } else {
        build_args(packages.drop_last()).push("-p"@).push(packages.last())
    }
}

/// The arguments of the command that builds packages.
pub fn build_arguments(packages: &Vec<String>) -> (r: Vec<String>)
    ensures
        texts(r@) == build_args(texts(packages@)),
{
    let ghost all = texts(packages@);
    let mut out: Vec<String> = Vec::new();
    out.push("build".to_owned());
    let mut i: usize = 0;
    assert(all.take(0) =~= Seq::<Seq<char>>::empty());
    assert(texts(out@) =~= seq!["build"@]);
    while i < packages.len()
        invariant
            i <= packages@.len(),
            all == texts(packages@),
            texts(out@) == build_args(all.take(i as int)),
        decreases packages@.len() - i,
    {
        assert(all.take(i + 1).drop_last() =~= all.take(i as int));
        let ghost before = texts(out@);
        out.push("-p".to_owned());
        out.push(packages[i].clone());
        assert(texts(out@) =~= before.push("-p"@).push(packages@[i as int]@));
        i += 1;
    }
    assert(all.take(i as int) =~= all);
    out
}

} // verus!
