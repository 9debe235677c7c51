//! Locations of the application's resources.

use crate::text::{
    decimal_text, is_space, is_whitespace, push_decimal, push_text, strip_leading, to_chars,
    without_leading,
};
use vstd::prelude::*;

verus! {

/// Whether `text` begins with `prefix`.
pub open spec fn starts_with(text: Seq<char>, prefix: Seq<char>) -> bool {
    prefix.len() <= text.len() && text.take(prefix.len() as int) == prefix
}

/// Whether `text` begins with `prefix`.
pub fn has_prefix(text: &str, prefix: &str) -> (r: bool)
    ensures
        r == starts_with(text@, prefix@),
{
    let t = to_chars(text);
    let p = to_chars(prefix);
    if p.len() > t.len() {
        return false;
    }
    let mut i: usize = 0;
    while i < p.len()
        invariant
            i <= p.len() <= t.len(),
            t@ == text@,
            p@ == prefix@,
            forall|k: int| 0 <= k < i ==> t@[k] == p@[k],
        decreases p.len() - i,
    {
        if t[i] != p[i] {
            proof {
                assert(text@.take(prefix@.len() as int)[i as int] != prefix@[i as int]);
            }
            return false;
        }
        i = i + 1;
    }
    proof {
        assert(text@.take(prefix@.len() as int) =~= prefix@);
    }
    true
}

/// The base path of the application for a page served under the path
/// `pathname`: `/tei-viewer` where the page lies under that directory, and
/// none for any other page or where no path is known.
pub fn get_base_url(pathname: Option<&str>) -> (base: String)
    ensures
        base@ == if pathname is Some && starts_with(pathname->0@, "/tei-viewer/"@) {
            "/tei-viewer"@
        } else {
            Seq::<char>::empty()
        },
{
    match pathname {
        Some(path) => {
            if has_prefix(path, "/tei-viewer/") {
                "/tei-viewer".to_string()
            } else {
                String::new()
            }
        },
        None => String::new(),
    }
}

/// The location of the resource `path` under the base path `base`: the
/// base, one `/`, and the path without its leading `/`s.
pub fn resource_url(base: &str, path: &str) -> (url: String)
    ensures
        url@ == base@ + "/"@ + without_leading(path@, '/'),
{
    let clean = strip_leading(path, '/');
    let mut url = String::new();
    push_text(&mut url, base);
    push_text(&mut url, "/");
    push_text(&mut url, clean.as_str());
    proof {
        assert(Seq::<char>::empty() + base@ =~= base@);
    }
    url
}

/// `s` without its leading whitespace.
pub open spec fn without_leading_space(s: Seq<char>) -> Seq<char>
    decreases s.len(),
{
    if s.len() > 0 && is_space(s[0]) {
        without_leading_space(s.skip(1))
    } else {
        s
    }
}

/// `s` without its trailing whitespace.
pub open spec fn without_trailing_space(s: Seq<char>) -> Seq<char>
    decreases s.len(),
{
    if s.len() > 0 && is_space(s.last()) {
        without_trailing_space(s.drop_last())
    } else {
        s
    }
}

/// `s` without the whitespace at its two ends.
pub open spec fn trimmed(s: Seq<char>) -> Seq<char> {
    without_trailing_space(without_leading_space(s))
}

/// The part of `s` after its last `/`; all of `s` where it has none.
pub open spec fn last_segment(s: Seq<char>) -> Seq<char>
    decreases s.len(),
{
    if s.len() == 0 || s.last() == '/' {
        Seq::empty()
    } else {
        last_segment(s.drop_last()).push(s.last())
    }
}

/// The text of the characters `chars[from..to]`.
fn text_of(chars: &Vec<char>, from: usize, to: usize) -> (text: String)
    requires
        from <= to <= chars.len(),
    ensures
        text@ == chars@.subrange(from as int, to as int),
{
    let mut text = String::new();
    let mut i: usize = from;
    while i < to
        invariant
            from <= i <= to <= chars.len(),
            text@ == chars@.subrange(from as int, i as int),
        decreases to - i,
    {
        text.push(chars[i]);
        proof {
            assert(chars@.subrange(from as int, i as int).push(chars@[i as int])
                =~= chars@.subrange(from as int, i + 1));
        }
        i = i + 1;
    }
    text
}

/// Removes the whitespace at the two ends of `s`.
pub fn trim(s: &str) -> (text: String)
    ensures
        text@ == trimmed(s@),
{
    let chars = to_chars(s);
    let n = chars.len();
    let mut i: usize = 0;
    proof {
        assert(s@.skip(0) =~= s@);
    }
    while i < n && is_whitespace(chars[i])
        invariant
            i <= n == chars.len(),
            chars@ == s@,
            without_leading_space(s@) == without_leading_space(s@.skip(i as int)),
        decreases n - i,
    {
        proof {
            assert(s@.skip(i as int).skip(1) =~= s@.skip(i + 1));
            assert(s@.skip(i as int)[0] == chars@[i as int]);
        }
        i = i + 1;
    }
    proof {
        if i < n {
            assert(s@.skip(i as int)[0] == chars@[i as int]);
        }
        assert(s@.skip(i as int) =~= s@.subrange(i as int, n as int));
    }
    let mut j: usize = n;
    while j > i && is_whitespace(chars[j - 1])
        invariant
            i <= j <= n == chars.len(),
            chars@ == s@,
            trimmed(s@) == without_trailing_space(s@.subrange(i as int, j as int)),
        decreases j,
    {
        proof {
            assert(s@.subrange(i as int, j as int).drop_last() =~= s@.subrange(i as int, j - 1));
            assert(s@.subrange(i as int, j as int).last() == chars@[j - 1]);
        }
        j = j - 1;
    }
    proof {
        if j > i {
            assert(s@.subrange(i as int, j as int).last() == chars@[j - 1]);
        }
    }
    text_of(&chars, i, j)
}

/// The part of `path` after its last `/`.
pub fn file_name(path: &str) -> (name: String)
    ensures
        name@ == last_segment(path@),
{
    let chars = to_chars(path);
    let n = chars.len();
    let mut k: usize = n;
    proof {
        assert(path@.take(n as int) =~= path@);
        assert(last_segment(path@) + path@.subrange(n as int, n as int) =~= last_segment(path@));
    }
    while k > 0 && chars[k - 1] != '/'
        invariant
            k <= n == chars.len(),
            chars@ == path@,
            last_segment(path@) == last_segment(path@.take(k as int)) + path@.subrange(
                k as int,
                n as int,
            ),
        decreases k,
    {
        proof {
            let head = path@.take(k as int);
            assert(head.drop_last() =~= path@.take(k - 1));
            assert(head.last() == chars@[k - 1]);
            assert(last_segment(path@.take(k - 1)).push(chars@[k - 1]) + path@.subrange(
                k as int,
                n as int,
            ) =~= last_segment(path@.take(k - 1)) + path@.subrange(k - 1, n as int));
        }
        k = k - 1;
    }
    proof {
        if k > 0 {
            assert(path@.take(k as int).last() == chars@[k - 1]);
        }
        assert(Seq::<char>::empty() + path@.subrange(k as int, n as int) =~= path@.subrange(
            k as int,
            n as int,
        ));
    }
    text_of(&chars, k, n)
}

/// The file name of the image of the page `page` whose declared location
/// is `declared`: the last segment of the declared location, or `p`, the
/// page number and `.jpg` where none is declared.
pub open spec fn image_file(declared: Seq<char>, page: u32) -> Seq<char> {
    if trimmed(declared).len() == 0 {
        "p"@ + decimal_text(page as nat) + ".jpg"@
    } else {
        last_segment(declared)
    }
}

/// Where the image of the page `page` of the project `project` is found,
/// under the base path `base`, for the declared location `declared`.
///
/// A declared location that is a web address or starts with `/` is taken
/// as it is, trimmed; one that starts with `public/` gets a `/` before it;
/// any other, and none, stands for the file of that name among the images
/// of the project.
pub open spec fn image_location(
    base: Seq<char>,
    project: Seq<char>,
    page: u32,
    declared: Seq<char>,
) -> Seq<char> {
    let raw = trimmed(declared);
    if raw.len() > 0 && (starts_with(raw, "http://"@) || starts_with(raw, "https://"@) || raw[0]
        == '/') {
        raw
    } else if raw.len() > 0 && starts_with(raw, "public/"@) {
        "/"@ + raw
    } else {
        base + "/"@ + without_leading(
            "public/projects/"@ + project + "/images/"@ + image_file(declared, page),
            '/',
        )
    }
}

/// Resolves the location of a page image; see [`image_location`].
pub fn image_url(base: &str, project: &str, page: u32, declared: &str) -> (url: String)
    ensures
        url@ == image_location(base@, project@, page, declared@),
{
    let raw = trim(declared);
    if !raw.as_str().is_empty() {
        if has_prefix(raw.as_str(), "http://") || has_prefix(raw.as_str(), "https://")
            || has_prefix(raw.as_str(), "/") {
            proof {
                reveal_strlit("/");
                if starts_with(raw@, "/"@) {
                    assert(raw@.take(1)[0] == raw@[0]);
                }
                if raw@[0] == '/' {
                    assert(raw@.take(1) =~= "/"@);
                }
            }
            return raw;
        }
        proof {
            reveal_strlit("/");
            if raw@[0] == '/' {
                assert(raw@.take(1) =~= "/"@);
            }
        }
        if has_prefix(raw.as_str(), "public/") {
            let mut url = "/".to_string();
            push_text(&mut url, raw.as_str());
            return url;
        }
    }
    let mut path = "public/projects/".to_string();
    push_text(&mut path, project);
    push_text(&mut path, "/images/");
    if raw.as_str().is_empty() {
        push_text(&mut path, "p");
        push_decimal(&mut path, page as u128);
        push_text(&mut path, ".jpg");
        proof {
            assert("public/projects/"@ + project@ + "/images/"@ + "p"@ + decimal_text(page as nat)
                + ".jpg"@ =~= "public/projects/"@ + project@ + "/images/"@ + ("p"@ + decimal_text(
                page as nat,
            ) + ".jpg"@));
        }
    } else {
        let name = file_name(declared);
        push_text(&mut path, name.as_str());
    }
    resource_url(base, path.as_str())
}

} // verus!
