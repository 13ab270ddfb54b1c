use crate::theme::{
    directory_type_named, DirectoryIndex, DirectoryType, RequiredAttribute, ThemeIndex, ThemeParseError,
};
use vstd::prelude::*;
use vstd::string::StrSliceExecFns;

verus! {

/// One attribute of an entry-file section: name, value, and whether the name carries
/// a parameter such as a locale (`Name[de]`).
pub struct EntryAttr {
    /// The attribute's name.
    pub name: Vec<u8>,
    /// The attribute's value.
    pub value: Vec<u8>,
    /// Whether the name carries a parameter.
    pub has_param: bool,
}

/// One section of an entry file: its title and its attributes in order.
pub struct EntrySection {
    /// The section's title.
    pub title: Vec<u8>,
    /// The section's attributes.
    pub attrs: Vec<EntryAttr>,
}

/// An attribute as (name, value, has parameter).
pub open spec fn attr_view(a: EntryAttr) -> (Seq<u8>, Seq<u8>, bool) {
    (a.name@, a.value@, a.has_param)
}

/// A section as (title, attributes).
pub open spec fn section_view(s: EntrySection) -> (Seq<u8>, Seq<(Seq<u8>, Seq<u8>, bool)>) {
    (s.title@, s.attrs@.map_values(|a: EntryAttr| attr_view(a)))
}

/// The sections read from an entry file, each either parsed or a failure.
pub open spec fn sections_view(v: Seq<Result<EntrySection, ()>>) -> Seq<
    Option<(Seq<u8>, Seq<(Seq<u8>, Seq<u8>, bool)>)>,
> {
    v.map_values(
        |r: Result<EntrySection, ()>|
            match r {
                Ok(s) => Some(section_view(s)),
                Err(_) => None,
            },
    )
}

/// The sections the entry-file parser reads from a file's bytes, in order: each
/// either parsed, or a failure (after which the parser stops).
pub uninterp spec fn parsed_entry(b: Seq<u8>) -> Seq<Option<(Seq<u8>, Seq<(Seq<u8>, Seq<u8>, bool)>)>>;

/// The text that UTF-8 bytes encode, or `None` when they are not valid UTF-8.
pub uninterp spec fn utf8_text(b: Seq<u8>) -> Option<Seq<char>>;

/// Whether a character is an ASCII decimal digit.
pub open spec fn is_digit(c: char) -> bool {
    '0' <= c <= '9'
}

/// The value of a text of decimal digits.
pub open spec fn digits_value(d: Seq<char>) -> int
    decreases d.len(),
{
    if d.len() == 0 {
        0
    } else {
        digits_value(d.drop_last()) * 10 + (d.last() as int - '0' as int)
    }
}

/// The digits of a number text: the text without a leading `+`.
pub open spec fn unsigned_part(s: Seq<char>) -> Seq<char> {
    if s.len() > 0 && s[0] == '+' {
        s.drop_first()
    } else {
        s
    }
}

/// Every character is an ASCII decimal digit.
pub open spec fn all_digits(d: Seq<char>) -> bool {
    forall|i: int| 0 <= i < d.len() ==> is_digit(#[trigger] d[i])
}

/// The number a text denotes as `u32`: an optional `+` followed by one or more decimal
/// digits whose value fits; `None` otherwise.
pub open spec fn u32_text(s: Seq<char>) -> Option<u32> {
    let d = unsigned_part(s);
    if d.len() > 0 && all_digits(d) && digits_value(d) <= u32::MAX {
        Some(digits_value(d) as u32)
    } else {
        None
    }
}

/// Relies on `freedesktop_entry_parser::low_level::parse_entry`: every item its iterator
/// yields, each section copied out as plain bytes.
#[verifier::external_body]
fn read_sections(bytes: &[u8]) -> (r: Vec<Result<EntrySection, ()>>)
    ensures
        sections_view(r@) == parsed_entry(bytes@),
{
    freedesktop_entry_parser::low_level::parse_entry(bytes).map(|item| item.map(|s| EntrySection {
        title: s.title.to_vec(),
        attrs: s.attrs.into_iter().map(|a| EntryAttr {
            name: a.name.to_vec(),
            value: a.value.into_owned(),
            has_param: a.param.is_some(),
        }).collect(),
    }).map_err(|_| ())).collect()
}

/// Relies on `std::str::from_utf8`: the text the bytes encode, if they are UTF-8.
#[verifier::external_body]
fn decode_utf8(b: &[u8]) -> (r: Option<String>)
    ensures
        r matches Some(s) ==> utf8_text(b@) == Some(s@),
        r is None ==> utf8_text(b@) is None,
{
    std::str::from_utf8(b).ok().map(String::from)
}

proof fn lemma_digits_nonneg(d: Seq<char>)
    requires
        forall|k: int| 0 <= k < d.len() ==> is_digit(#[trigger] d[k]),
    ensures
        digits_value(d) >= 0,
    decreases d.len(),
{
    if d.len() > 0 {
        lemma_digits_nonneg(d.drop_last());
        assert(is_digit(d[d.len() - 1]));
    }
}

proof fn lemma_digits_grow(d: Seq<char>, i: int, j: int)
    requires
        0 <= i <= j <= d.len(),
        forall|k: int| 0 <= k < d.len() ==> is_digit(#[trigger] d[k]),
    ensures
        digits_value(d.subrange(0, j)) >= digits_value(d.subrange(0, i)),
    decreases j - i,
{
    if i < j {
        lemma_digits_grow(d, i, j - 1);
        let pre = d.subrange(0, j - 1);
        assert(d.subrange(0, j).drop_last() =~= pre);
        assert(d.subrange(0, j).last() == d[j - 1]);
        assert(is_digit(d[j - 1]));
        assert forall|k: int| 0 <= k < pre.len() implies is_digit(#[trigger] pre[k]) by {
            assert(pre[k] == d[k]);
        }
        lemma_digits_nonneg(pre);
    }
}

/// The number a decimal text denotes, as `str::parse::<u32>` reads it: an optional
/// `+` then one or more digits whose value fits.
fn parse_u32(s: &str) -> (r: Option<u32>)
    ensures
        r == u32_text(s@),
{
    let n = s.unicode_len();
    let start: usize = if n > 0 && s.get_char(0) == '+' {
        1
    } else {
        0
    };
    let ghost d = unsigned_part(s@);
    assert(d =~= s@.subrange(start as int, n as int));
    if start == n {
        assert(d.len() == 0);
        return None;
    }
    let mut acc: u64 = 0;
    let mut i: usize = start;
    while i < n
        invariant
            n == s@.len(),
            start <= i <= n,
            start < n,
            d =~= s@.subrange(start as int, n as int),
            d == unsigned_part(s@),
            forall|k: int| 0 <= k < i - start ==> is_digit(#[trigger] d[k]),
            acc == digits_value(d.subrange(0, i - start)),
            acc <= u32::MAX,
        decreases n - i,
    {
        let c = s.get_char(i);
        assert(d[i - start] == c);
        if !('0' <= c && c <= '9') {
            assert(!is_digit(d[i - start]));
            assert(!all_digits(d));
            return None;
        }
        let v = (c as u32 - '0' as u32) as u64;
        assert(d.subrange(0, i + 1 - start).drop_last() =~= d.subrange(0, i - start));
        acc = acc * 10 + v;
        if acc > 0xffff_ffff {
            proof {
                assert(acc == digits_value(d.subrange(0, i + 1 - start)));
                if all_digits(d) {
                    lemma_digits_grow(d, i + 1 - start, d.len() as int);
                    assert(d.subrange(0, d.len() as int) =~= d);
                    assert(digits_value(d) > u32::MAX);
                }
            }
            return None;
        }
        i = i + 1;
    }
    assert(d.subrange(0, d.len() as int) =~= d);
    Some(acc as u32)
}

/// The bytes of an ASCII text.
pub open spec fn ascii_bytes(s: Seq<char>) -> Seq<u8> {
    s.map_values(|c: char| c as u8)
}

fn key_bytes(s: &str) -> (r: Vec<u8>)
    requires
        forall|i: int| 0 <= i < s@.len() ==> (s@[i] as u32) < 128,
    ensures
        r@ == ascii_bytes(s@),
{
    let n = s.unicode_len();
    let mut r: Vec<u8> = Vec::new();
    let mut i: usize = 0;
    while i < n
        invariant
            n == s@.len(),
            i <= n,
            forall|j: int| 0 <= j < s@.len() ==> (s@[j] as u32) < 128,
            r@ == ascii_bytes(s@.subrange(0, i as int)),
        decreases n - i,
    {
        let c = s.get_char(i);
        r.push(c as u8);
        assert(ascii_bytes(s@.subrange(0, i + 1)) =~= ascii_bytes(s@.subrange(0, i as int)).push(c as u8));
        i = i + 1;
    }
    assert(s@.subrange(0, n as int) =~= s@);
    r
}

fn same_bytes(a: &Vec<u8>, b: &Vec<u8>) -> (r: bool)
    ensures
        r == (a@ == b@),
{
    if a.len() != b.len() {
        return false;
    }
    let mut i: usize = 0;
    while i < a.len()
        invariant
            a@.len() == b@.len(),
            i <= a@.len(),
            forall|j: int| 0 <= j < i ==> a@[j] == b@[j],
        decreases a@.len() - i,
    {
        if a[i] != b[i] {
            return false;
        }
        i = i + 1;
    }
    assert(a@ =~= b@);
    true
}

/// Position of the first of the first `n` attributes named `key` without a parameter.
pub open spec fn first_attr(attrs: Seq<(Seq<u8>, Seq<u8>, bool)>, key: Seq<u8>, n: nat) -> Option<int>
    decreases n,
{
    if n == 0 || n > attrs.len() {
        None
    } else {
        match first_attr(attrs, key, (n - 1) as nat) {
            Some(i) => Some(i),
            None => if attrs[n - 1].0 == key && !attrs[n - 1].2 {
                Some(n - 1)
            } else {
                None
            },
        }
    }
}

/// The text of the first attribute named `key` without a parameter: none when there
/// is no such attribute, `NotUtf8` when its value is not UTF-8.
pub open spec fn attr_text(attrs: Seq<(Seq<u8>, Seq<u8>, bool)>, key: Seq<char>) -> Result<
    Option<Seq<char>>,
    ThemeParseError,
> {
    match first_attr(attrs, ascii_bytes(key), attrs.len()) {
        None => Ok(None),
        Some(i) => match utf8_text(attrs[i].1) {
            Some(t) => Ok(Some(t)),
            None => Err(ThemeParseError::NotUtf8),
        },
    }
}

fn find_attr(attrs: &Vec<EntryAttr>, key: &str) -> (r: Result<Option<String>, ThemeParseError>)
    requires
        forall|i: int| 0 <= i < key@.len() ==> (key@[i] as u32) < 128,
    ensures
        match (r, attr_text(attrs@.map_values(|a: EntryAttr| attr_view(a)), key@)) {
            (Ok(Some(s)), Ok(Some(t))) => s@ == t,
            (Ok(None), Ok(None)) => true,
            (Err(e), Err(f)) => e == f,
            _ => false,
        },
{
    let ghost av = attrs@.map_values(|a: EntryAttr| attr_view(a));
    let k = key_bytes(key);
    let mut i: usize = 0;
    while i < attrs.len()
        invariant
            i <= attrs@.len(),
            av == attrs@.map_values(|a: EntryAttr| attr_view(a)),
            k@ == ascii_bytes(key@),
            first_attr(av, k@, i as nat) is None,
        decreases attrs@.len() - i,
    {
        let a = &attrs[i];
        assert(av[i as int] == attr_view(*a));
        if same_bytes(&a.name, &k) && !a.has_param {
            assert(first_attr(av, k@, (i + 1) as nat) == Some(i as int));
            proof { lemma_first_attr_stable(av, k@, (i + 1) as nat, av.len()); }
            return match decode_utf8(a.value.as_slice()) {
                Some(s) => Ok(Some(s)),
                None => Err(ThemeParseError::NotUtf8),
            };
        }
        i = i + 1;
    }
    Ok(None)
}

proof fn lemma_first_attr_stable(attrs: Seq<(Seq<u8>, Seq<u8>, bool)>, key: Seq<u8>, m: nat, n: nat)
    requires
        m <= n <= attrs.len(),
        first_attr(attrs, key, m) is Some,
    ensures
        first_attr(attrs, key, n) == first_attr(attrs, key, m),
    decreases n - m,
{
    if m < n {
        lemma_first_attr_stable(attrs, key, m, (n - 1) as nat);
    }
}

/// The pieces of `s` between commas, after the first `n` characters: the pieces
/// completed so far and the piece still open.
pub open spec fn split_prefix(s: Seq<char>, n: nat) -> (Seq<Seq<char>>, Seq<char>)
    decreases n,
{
    if n == 0 || n > s.len() {
        (seq![], seq![])
    } else {
        let (done, open) = split_prefix(s, (n - 1) as nat);
        if s[n - 1] == ',' {
            (done.push(open), seq![])
        } else {
            (done, open.push(s[n - 1]))
        }
    }
}

/// The pieces of `s` between commas: one more than the number of commas.
pub open spec fn split_commas(s: Seq<char>) -> Seq<Seq<char>> {
    let (done, open) = split_prefix(s, s.len());
    done.push(open)
}

/// The texts of a list of strings.
pub open spec fn texts(v: Seq<String>) -> Seq<Seq<char>> {
    v.map_values(|x: String| x@)
}

fn split_on_commas(s: &str) -> (r: Vec<String>)
    ensures
        texts(r@) == split_commas(s@),
{
    let n = s.unicode_len();
    let mut done: Vec<String> = Vec::new();
    let mut start: usize = 0;
    let mut i: usize = 0;
    while i < n
        invariant
            n == s@.len(),
            start <= i <= n,
            split_prefix(s@, i as nat) == (texts(done@), s@.subrange(start as int, i as int)),
        decreases n - i,
    {
        let ghost before = texts(done@);
        if s.get_char(i) == ',' {
            let piece = s.substring_char(start, i).to_owned();
            done.push(piece);
            assert(texts(done@) =~= before.push(s@.subrange(start as int, i as int)));
            start = i + 1;
            assert(s@.subrange(start as int, i + 1) =~= seq![]);
        } else {
            assert(s@.subrange(start as int, i + 1) =~= s@.subrange(start as int, i as int).push(s@[i as int]));
        }
        i = i + 1;
    }
    let ghost before = texts(done@);
    done.push(s.substring_char(start, n).to_owned());
    assert(texts(done@) =~= before.push(s@.subrange(start as int, n as int)));
    done
}

fn contains_text(v: &Vec<String>, t: &String) -> (r: bool)
    ensures
        r == texts(v@).contains(t@),
{
    let mut i: usize = 0;
    while i < v.len()
        invariant
            i <= v@.len(),
            forall|j: int| 0 <= j < i ==> texts(v@)[j] != t@,
        decreases v@.len() - i,
    {
        if v[i] == *t {
            assert(texts(v@)[i as int] == t@);
            return true;
        }
        i = i + 1;
    }
    false
}

/// The number given by the attribute `key`, or `default` when it is absent.
pub open spec fn num_attr(attrs: Seq<(Seq<u8>, Seq<u8>, bool)>, key: Seq<char>, default: u32) -> Result<
    u32,
    ThemeParseError,
> {
    match attr_text(attrs, key) {
        Err(e) => Err(e),
        Ok(None) => Ok(default),
        Ok(Some(t)) => match u32_text(t) {
            Some(v) => Ok(v),
            None => Err(ThemeParseError::ParseNumError),
        },
    }
}

/// The directory type given by the `Type` attribute; `Threshold` when it is absent.
pub open spec fn type_attr(attrs: Seq<(Seq<u8>, Seq<u8>, bool)>) -> Result<DirectoryType, ThemeParseError> {
    match attr_text(attrs, "Type"@) {
        Err(e) => Err(e),
        Ok(None) => Ok(DirectoryType::Threshold),
        Ok(Some(t)) => match directory_type_named(t) {
            Some(d) => Ok(d),
            None => Err(ThemeParseError::InvalidDirectoryType),
        },
    }
}

/// The size given by the required `Size` attribute.
pub open spec fn size_attr(attrs: Seq<(Seq<u8>, Seq<u8>, bool)>) -> Result<u32, ThemeParseError> {
    match attr_text(attrs, "Size"@) {
        Err(e) => Err(e),
        Ok(None) => Err(ThemeParseError::MissingRequiredAttribute(RequiredAttribute::Size)),
        Ok(Some(t)) => match u32_text(t) {
            Some(v) => Ok(v),
            None => Err(ThemeParseError::ParseNumError),
        },
    }
}

/// The first error among the attributes of a directory section, read in the order
/// title, `Size`, `Scale`, `Context`, `Type`, `MaxSize`, `MinSize`, `Threshold`.
pub open spec fn directory_error(sec: (Seq<u8>, Seq<(Seq<u8>, Seq<u8>, bool)>)) -> Option<ThemeParseError> {
    let a = sec.1;
    if utf8_text(sec.0) is None {
        Some(ThemeParseError::NotUtf8)
    } else if size_attr(a) is Err {
        Some(size_attr(a)->Err_0)
    } else if num_attr(a, "Scale"@, 1) is Err {
        Some(num_attr(a, "Scale"@, 1)->Err_0)
    } else if attr_text(a, "Context"@) is Err {
        Some(attr_text(a, "Context"@)->Err_0)
    } else if type_attr(a) is Err {
        Some(type_attr(a)->Err_0)
    } else if num_attr(a, "MaxSize"@, size_attr(a)->Ok_0) is Err {
        Some(num_attr(a, "MaxSize"@, size_attr(a)->Ok_0)->Err_0)
    } else if num_attr(a, "MinSize"@, size_attr(a)->Ok_0) is Err {
        Some(num_attr(a, "MinSize"@, size_attr(a)->Ok_0)->Err_0)
    } else if num_attr(a, "Threshold"@, 2) is Err {
        Some(num_attr(a, "Threshold"@, 2)->Err_0)
    } else {
        None
    }
}

/// `d` is the directory a section without errors describes.
pub open spec fn describes(d: DirectoryIndex, sec: (Seq<u8>, Seq<(Seq<u8>, Seq<u8>, bool)>)) -> bool {
    let a = sec.1;
    let size = size_attr(a)->Ok_0;
    &&& Some(d.directory_name@) == utf8_text(sec.0)
    &&& d.size == size
    &&& d.scale == num_attr(a, "Scale"@, 1)->Ok_0
    &&& match (d.context, attr_text(a, "Context"@)->Ok_0) {
        (Some(c), Some(t)) => c@ == t,
        (None, None) => true,
        _ => false,
    }
    &&& d.directory_type == type_attr(a)->Ok_0
    &&& d.max_size == num_attr(a, "MaxSize"@, size)->Ok_0
    &&& d.min_size == num_attr(a, "MinSize"@, size)->Ok_0
    &&& d.threshold == num_attr(a, "Threshold"@, 2)->Ok_0
}

fn num_or(attrs: &Vec<EntryAttr>, key: &str, default: u32) -> (r: Result<u32, ThemeParseError>)
    requires
        forall|i: int| 0 <= i < key@.len() ==> (key@[i] as u32) < 128,
    ensures
        r == num_attr(attrs@.map_values(|a: EntryAttr| attr_view(a)), key@, default),
{
    match find_attr(attrs, key) {
        Err(e) => Err(e),
        Ok(None) => Ok(default),
        Ok(Some(t)) => match parse_u32(t.as_str()) {
            Some(v) => Ok(v),
            None => Err(ThemeParseError::ParseNumError),
        },
    }
}

impl DirectoryIndex {
    /// The directory that a section of an index file describes: the title names it,
    /// `Size` is required, `Scale` defaults to 1, `Type` to `Threshold`, `MaxSize` and
    /// `MinSize` to the size, `Threshold` to 2. Fails with the first error met in that
    /// order.
    pub fn parse(section: &EntrySection) -> (r: Result<DirectoryIndex, ThemeParseError>)
        ensures
            r matches Err(e) ==> directory_error(section_view(*section)) == Some(e),
            r matches Ok(d) ==> directory_error(section_view(*section)) is None && describes(
                d,
                section_view(*section),
            ) && d.is_scaled_dir == (d.scale != 1),
            r is Ok <==> directory_error(section_view(*section)) is None,
    {
        proof {
            reveal_strlit("Size");
            reveal_strlit("Scale");
            reveal_strlit("Context");
            reveal_strlit("Type");
            reveal_strlit("MaxSize");
            reveal_strlit("MinSize");
            reveal_strlit("Threshold");
        }
        let attrs = &section.attrs;
        let directory_name = match decode_utf8(section.title.as_slice()) {
            Some(t) => t,
            None => return Err(ThemeParseError::NotUtf8),
        };
        let size = match find_attr(attrs, "Size") {
            Err(e) => return Err(e),
            Ok(None) => return Err(ThemeParseError::MissingRequiredAttribute(RequiredAttribute::Size)),
            Ok(Some(t)) => match parse_u32(t.as_str()) {
                Some(v) => v,
                None => return Err(ThemeParseError::ParseNumError),
            },
        };
        let scale = match num_or(attrs, "Scale", 1) {
            Err(e) => return Err(e),
            Ok(v) => v,
        };
        let context = match find_attr(attrs, "Context") {
            Err(e) => return Err(e),
            Ok(c) => c,
        };
        let directory_type = match find_attr(attrs, "Type") {
            Err(e) => return Err(e),
            Ok(None) => DirectoryType::Threshold,
            Ok(Some(t)) => match DirectoryType::from_name(t.as_str()) {
                Some(d) => d,
                None => return Err(ThemeParseError::InvalidDirectoryType),
            },
        };
        let max_size = match num_or(attrs, "MaxSize", size) {
            Err(e) => return Err(e),
            Ok(v) => v,
        };
        let min_size = match num_or(attrs, "MinSize", size) {
            Err(e) => return Err(e),
            Ok(v) => v,
        };
        let threshold = match num_or(attrs, "Threshold", 2) {
            Err(e) => return Err(e),
            Ok(v) => v,
        };
        Ok(DirectoryIndex {
            directory_name,
            is_scaled_dir: scale != 1,
            size,
            scale,
            context,
            directory_type,
            max_size,
            min_size,
            threshold,
        })
    }
}

/// The boolean a text denotes: exactly "true" or "false".
pub open spec fn bool_text(t: Seq<char>) -> Option<bool> {
    if t == "true"@ {
        Some(true)
    } else if t == "false"@ {
        Some(false)
    } else {
        None
    }
}

/// The comma-separated list an optional text gives; empty when the text is absent.
pub open spec fn list_of(t: Option<Seq<char>>) -> Seq<Seq<char>> {
    match t {
        Some(x) => split_commas(x),
        None => seq![],
    }
}

/// The first error among the attributes of the first section, read in the order
/// `Name` (required), `Comment`, `Inherits`, `Directories` (required),
/// `ScaledDirectories`, `Hidden` (a boolean), `Example`.
pub open spec fn head_error(a: Seq<(Seq<u8>, Seq<u8>, bool)>) -> Option<ThemeParseError> {
    if attr_text(a, "Name"@) is Err {
        Some(attr_text(a, "Name"@)->Err_0)
    } else if attr_text(a, "Name"@)->Ok_0 is None {
        Some(ThemeParseError::MissingRequiredAttribute(RequiredAttribute::Name))
    } else if attr_text(a, "Comment"@) is Err {
        Some(attr_text(a, "Comment"@)->Err_0)
    } else if attr_text(a, "Inherits"@) is Err {
        Some(attr_text(a, "Inherits"@)->Err_0)
    } else if attr_text(a, "Directories"@) is Err {
        Some(attr_text(a, "Directories"@)->Err_0)
    } else if attr_text(a, "Directories"@)->Ok_0 is None {
        Some(ThemeParseError::MissingRequiredAttribute(RequiredAttribute::Directories))
    } else if attr_text(a, "ScaledDirectories"@) is Err {
        Some(attr_text(a, "ScaledDirectories"@)->Err_0)
    } else if attr_text(a, "Hidden"@) is Err {
        Some(attr_text(a, "Hidden"@)->Err_0)
    } else if attr_text(a, "Hidden"@)->Ok_0 matches Some(t) && bool_text(t) is None {
        Some(ThemeParseError::ParseBoolError)
    } else if attr_text(a, "Example"@) is Err {
        Some(attr_text(a, "Example"@)->Err_0)
    } else {
        None
    }
}

/// The scaled directory list, when the first section gives one.
pub open spec fn scaled_list(a: Seq<(Seq<u8>, Seq<u8>, bool)>) -> Option<Seq<Seq<char>>> {
    match attr_text(a, "ScaledDirectories"@)->Ok_0 {
        Some(t) => Some(split_commas(t)),
        None => None,
    }
}

/// Whether a title is in the scaled directory list.
pub open spec fn in_scaled(scaled: Option<Seq<Seq<char>>>, title: Seq<char>) -> bool {
    match scaled {
        Some(l) => l.contains(title),
        None => false,
    }
}

/// The directory sections among sections `1..n`, each with whether it is a scaled
/// directory, or the first error among them. Sections that failed to parse or whose
/// title is not UTF-8 are passed over, as are sections listed in neither directory list.
pub open spec fn directory_sections(
    secs: Seq<Option<(Seq<u8>, Seq<(Seq<u8>, Seq<u8>, bool)>)>>,
    dirs: Seq<Seq<char>>,
    scaled: Option<Seq<Seq<char>>>,
    n: nat,
) -> Result<Seq<((Seq<u8>, Seq<(Seq<u8>, Seq<u8>, bool)>), bool)>, ThemeParseError>
    decreases n,
{
    if n <= 1 || n > secs.len() {
        Ok(seq![])
    } else {
        match directory_sections(secs, dirs, scaled, (n - 1) as nat) {
            Err(e) => Err(e),
            Ok(acc) => match secs[n - 1] {
                None => Ok(acc),
                Some(sec) => match utf8_text(sec.0) {
                    None => Ok(acc),
                    Some(title) => if !dirs.contains(title) && !in_scaled(scaled, title) {
                        Ok(acc)
                    } else {
                        match directory_error(sec) {
                            Some(e) => Err(e),
                            None => Ok(acc.push((sec, in_scaled(scaled, title)))),
                        }
                    },
                },
            },
        }
    }
}

/// The first error in an index file's sections: no section at all, a first section
/// that failed to parse, an error in its attributes, or an error in a listed directory.
pub open spec fn index_error(secs: Seq<Option<(Seq<u8>, Seq<(Seq<u8>, Seq<u8>, bool)>)>>) -> Option<
    ThemeParseError,
> {
    if secs.len() == 0 {
        Some(ThemeParseError::NotAnIconTheme)
    } else if secs[0] is None {
        Some(ThemeParseError::ParseError)
    } else if head_error(secs[0]->Some_0.1) is Some {
        head_error(secs[0]->Some_0.1)
    } else {
        let a = secs[0]->Some_0.1;
        match directory_sections(
            secs,
            split_commas(attr_text(a, "Directories"@)->Ok_0->Some_0),
            scaled_list(a),
            secs.len(),
        ) {
            Err(e) => Some(e),
            Ok(_) => None,
        }
    }
}

/// `ix` is the index that error-free sections describe.
pub open spec fn index_describes(
    ix: ThemeIndex,
    secs: Seq<Option<(Seq<u8>, Seq<(Seq<u8>, Seq<u8>, bool)>)>>,
) -> bool {
    let a = secs[0]->Some_0.1;
    let kept = directory_sections(
        secs,
        split_commas(attr_text(a, "Directories"@)->Ok_0->Some_0),
        scaled_list(a),
        secs.len(),
    )->Ok_0;
    &&& ix.name@ == attr_text(a, "Name"@)->Ok_0->Some_0
    &&& ix.comment@ == match attr_text(a, "Comment"@)->Ok_0 {
        Some(t) => t,
        None => seq![],
    }
    &&& texts(ix.inherits@) == list_of(attr_text(a, "Inherits"@)->Ok_0)
    &&& ix.hidden == match attr_text(a, "Hidden"@)->Ok_0 {
        Some(t) => bool_text(t)->Some_0,
        None => false,
    }
    &&& match (ix.example, attr_text(a, "Example"@)->Ok_0) {
        (Some(e), Some(t)) => e@ == t,
        (None, None) => true,
        _ => false,
    }
    &&& ix.directories@.len() == kept.len()
    &&& forall|k: int|
        0 <= k < kept.len() ==> describes(#[trigger] ix.directories@[k], kept[k].0)
            && ix.directories@[k].is_scaled_dir == (kept[k].1 || ix.directories@[k].scale != 1)
}

fn text_list(v: Option<String>) -> (r: Vec<String>)
    ensures
        texts(r@) == list_of(
            match v {
                Some(s) => Some(s@),
                None => None,
            },
        ),
{
    match v {
        Some(s) => split_on_commas(s.as_str()),
        None => {
            let r: Vec<String> = Vec::new();
            assert(texts(r@) =~= seq![]);
            r
        },
    }
}

impl ThemeIndex {
    /// Parses the contents of an index file. The first section describes the theme:
    /// `Name` and `Directories` are required, `Comment` defaults to empty, `Inherits`,
    /// `Directories` and `ScaledDirectories` are comma-separated lists, `Hidden` is a
    /// boolean defaulting to false. Each later section listed in either directory list
    /// describes a directory. Fails with the first error met.
    pub fn parse(bytes: &[u8]) -> (r: Result<ThemeIndex, ThemeParseError>)
        ensures
            r matches Err(e) ==> index_error(parsed_entry(bytes@)) == Some(e),
            r is Ok <==> index_error(parsed_entry(bytes@)) is None,
            r matches Ok(ix) ==> index_describes(ix, parsed_entry(bytes@)),
    {
        proof {
            reveal_strlit("Name");
            reveal_strlit("Comment");
            reveal_strlit("Inherits");
            reveal_strlit("Directories");
            reveal_strlit("ScaledDirectories");
            reveal_strlit("Hidden");
            reveal_strlit("Example");
        }
        let secs = read_sections(bytes);
        let ghost sv = parsed_entry(bytes@);
        if secs.len() == 0 {
            return Err(ThemeParseError::NotAnIconTheme);
        }
        assert(sv[0] == sections_view(secs@)[0]);
        let head = match &secs[0] {
            Ok(h) => h,
            Err(_) => return Err(ThemeParseError::ParseError),
        };
        let attrs = &head.attrs;
        let name = match find_attr(attrs, "Name") {
            Err(e) => return Err(e),
            Ok(None) => return Err(ThemeParseError::MissingRequiredAttribute(RequiredAttribute::Name)),
            Ok(Some(t)) => t,
        };
        let comment = match find_attr(attrs, "Comment") {
            Err(e) => return Err(e),
            Ok(Some(t)) => t,
            Ok(None) => String::new(),
        };
        let inherits = match find_attr(attrs, "Inherits") {
            Err(e) => return Err(e),
            Ok(t) => text_list(t),
        };
        let directories = match find_attr(attrs, "Directories") {
            Err(e) => return Err(e),
            Ok(None) => return Err(ThemeParseError::MissingRequiredAttribute(RequiredAttribute::Directories)),
            Ok(Some(t)) => split_on_commas(t.as_str()),
        };
        let scaled = match find_attr(attrs, "ScaledDirectories") {
            Err(e) => return Err(e),
            Ok(None) => None,
            Ok(Some(t)) => Some(split_on_commas(t.as_str())),
        };
        let hidden = match find_attr(attrs, "Hidden") {
            Err(e) => return Err(e),
            Ok(None) => false,
            Ok(Some(t)) => {
                proof {
                    reveal_strlit("true");
                    reveal_strlit("false");
                }
                if t == "true".to_owned() {
                    true
                } else if t == "false".to_owned() {
                    false
                } else {
                    return Err(ThemeParseError::ParseBoolError);
                }
            },
        };
        let example = match find_attr(attrs, "Example") {
            Err(e) => return Err(e),
            Ok(t) => t,
        };
        let ghost a = sv[0]->Some_0.1;
        let ghost dl = texts(directories@);
        let ghost sl = scaled_list(a);
        assert(match scaled {
            Some(l) => sl == Some(texts(l@)),
            None => sl is None,
        });
        let mut dirs: Vec<DirectoryIndex> = Vec::new();
        let mut k: usize = 1;
        while k < secs.len()
            invariant
                1 <= k <= secs@.len(),
                sv == sections_view(secs@),
                sv == parsed_entry(bytes@),
                sv.len() > 0 && sv[0] is Some,
                a == sv[0]->Some_0.1,
                head_error(a) is None,
                dl == split_commas(attr_text(a, "Directories"@)->Ok_0->Some_0),
                sl == scaled_list(a),
                dl == texts(directories@),
                match scaled {
                    Some(l) => sl == Some(texts(l@)),
                    None => sl is None,
                },
                directory_sections(sv, dl, sl, k as nat) matches Ok(acc) && dirs@.len() == acc.len()
                    && forall|j: int|
                    0 <= j < acc.len() ==> describes(#[trigger] dirs@[j], acc[j].0)
                        && dirs@[j].is_scaled_dir == (acc[j].1 || dirs@[j].scale != 1),
            decreases secs@.len() - k,
        {
            assert(sv[k as int] == sections_view(secs@)[k as int]);
            let ghost acc = directory_sections(sv, dl, sl, k as nat)->Ok_0;
            if let Ok(sec) = &secs[k] {
                if let Some(title) = decode_utf8(sec.title.as_slice()) {
                    let is_scaled = match &scaled {
                        Some(l) => contains_text(l, &title),
                        None => false,
                    };
                    assert(is_scaled == in_scaled(sl, title@));
                    if contains_text(&directories, &title) || is_scaled {
                        match DirectoryIndex::parse(sec) {
                            Err(e) => {
                                assert(sv[k as int] == Some(section_view(*sec)));
                                assert(utf8_text(section_view(*sec).0) == Some(title@));
                                assert(directory_sections(sv, dl, sl, (k + 1) as nat) == Err::<
                                    Seq<((Seq<u8>, Seq<(Seq<u8>, Seq<u8>, bool)>), bool)>,
                                    ThemeParseError,
                                >(e));
                                proof { lemma_sections_err(sv, dl, sl, (k + 1) as nat, e); }
                                assert(sv.len() == secs@.len());
                                return Err(e);
                            },
                            Ok(d) => {
                                let mut d = d;
                                if is_scaled {
                                    d.is_scaled_dir = true;
                                }
                                let ghost before = dirs@;
                                dirs.push(d);
                                assert(forall|j: int| 0 <= j < before.len() ==> dirs@[j] == before[j]);
                            },
                        }
                    }
                }
            }
            k = k + 1;
        }
        Ok(ThemeIndex { name, comment, inherits, directories: dirs, hidden, example })
    }
}

proof fn lemma_sections_err(
    secs: Seq<Option<(Seq<u8>, Seq<(Seq<u8>, Seq<u8>, bool)>)>>,
    dirs: Seq<Seq<char>>,
    scaled: Option<Seq<Seq<char>>>,
    n: nat,
    e: ThemeParseError,
)
    requires
        n <= secs.len(),
        directory_sections(secs, dirs, scaled, n) == Err::<Seq<((Seq<u8>, Seq<(Seq<u8>, Seq<u8>, bool)>), bool)>, ThemeParseError>(e),
    ensures
        directory_sections(secs, dirs, scaled, secs.len()) == Err::<Seq<((Seq<u8>, Seq<(Seq<u8>, Seq<u8>, bool)>), bool)>, ThemeParseError>(e),
    decreases secs.len() - n,
{
    if n < secs.len() {
        lemma_sections_err(secs, dirs, scaled, n + 1, e);
    }
}

} // verus!
