//! Mount-pointed paths: `/Core/Item`, `/Content/Items/Hookshot`.
//!
//! A text token has to resolve to one class, unambiguously, forever, so a path names its mount.
//! Content may extend Core; Core never extends Content. An asset path names a file and lives only
//! under `/Content`; it may carry a `.` or `-` in a segment, which a class path may not.

use crate::serialize::{dec_str, enc_str, Codec, Deserialize, Reader, SerError, SerResult, Serialize, Writer};
use crate::text::{chars_of, debug_quoted, same_chars, str_debug, string_from_chars};
use vstd::prelude::*;
use vstd::utf8::encode_utf8;

verus! {

/// Which mount a path is rooted at.
#[derive(Clone, Copy, Debug, PartialEq, Eq, PartialOrd, Ord, Hash, Structural)]
pub enum Mount {
    /// Tier-1 classes, implemented in Rust.
    Core,
    /// Authored schematics and assets.
    Content,
}

/// May something in mount `a` extend something in mount `b`?
pub open spec fn extends_ok(a: Mount, b: Mount) -> bool {
    a == Mount::Content || b == Mount::Core
}

impl Mount {
    /// The leading segment, without slashes.
    pub fn as_str(self) -> (s: &'static str)
        ensures
            s@ == mount_name(self),
    {
        match self {
            Mount::Core => "Core",
            Mount::Content => "Content",
        }
    }

    /// May something in this mount extend something in `base`? Content extends Core and
    /// Content; Core extends only Core.
    pub fn may_extend(self, base: Mount) -> (b: bool)
        ensures
            b == extends_ok(self, base),
    {
        match (self, base) {
            (Mount::Core, Mount::Core) => true,
            (Mount::Content, _) => true,
            _ => false,
        }
    }
}

/// A mount's name.
pub open spec fn mount_name(m: Mount) -> Seq<char> {
    match m {
        Mount::Core => "Core"@,
        Mount::Content => "Content"@,
    }
}

/// Core never extends Content, and every mount extends Core.
pub proof fn law_core_never_extends_content(m: Mount)
    ensures
        !extends_ok(Mount::Core, Mount::Content),
        extends_ok(m, Mount::Core),
        extends_ok(Mount::Content, m),
{
}

/// What is wrong with a path.
#[derive(Clone, Debug, PartialEq, Eq)]
pub enum PathError {
    /// It did not start with `/`.
    NotRooted { text: String },
    /// The first segment was not a known mount.
    UnknownMount { text: String, mount: String },
    /// There was nothing after the mount.
    NoClass { text: String },
    /// A segment was empty, or held a character it may not.
    BadSegment { text: String, segment: String },
}

/// The message for a path error; each names the text and the part at fault.
pub open spec fn path_error_text(e: PathError) -> Seq<char> {
    match e {
        PathError::NotRooted { text } => str_debug(text@)
            + " is not rooted — a class path starts with `/`"@,
        PathError::UnknownMount { text, mount } => str_debug(text@) + " is mounted at "@ + str_debug(
            mount@,
        ) + "; the mounts are /Core and /Content"@,
        PathError::NoClass { text } => str_debug(text@) + " names a mount but no class inside it"@,
        PathError::BadSegment { text, segment } => str_debug(text@) + " has the segment "@
            + str_debug(segment@) + "; segments are [A-Za-z0-9_] and never empty"@,
    }
}

impl PathError {
    /// The message for this error.
    pub fn to_string(&self) -> (s: String)
        ensures
            s@ == path_error_text(*self),
    {
        match self {
            PathError::NotRooted { text } => {
                let mut s = debug_quoted(text.as_str());
                s.append(" is not rooted — a class path starts with `/`");
                s
            },
            PathError::UnknownMount { text, mount } => {
                let mut s = debug_quoted(text.as_str());
                s.append(" is mounted at ");
                let m = debug_quoted(mount.as_str());
                s.append(m.as_str());
                s.append("; the mounts are /Core and /Content");
                s
            },
            PathError::NoClass { text } => {
                let mut s = debug_quoted(text.as_str());
                s.append(" names a mount but no class inside it");
                s
            },
            PathError::BadSegment { text, segment } => {
                let mut s = debug_quoted(text.as_str());
                s.append(" has the segment ");
                let m = debug_quoted(segment.as_str());
                s.append(m.as_str());
                s.append("; segments are [A-Za-z0-9_] and never empty");
                s
            },
        }
    }
}

// ---------------------------------------------------------------------------------------------
// The grammar, as functions on characters
// ---------------------------------------------------------------------------------------------

/// `s` cut at every `/`, keeping empty pieces: always at least one piece.
pub open spec fn pieces(s: Seq<char>) -> Seq<Seq<char>>
    decreases s.len(),
{
    if s.len() == 0 {
        seq![Seq::empty()]
    } else {
        let t = pieces(s.drop_last());
        if s.last() == '/' {
            t.push(Seq::empty())
        } else {
            t.update(t.len() - 1, t.last().push(s.last()))
        }
    }
}

proof fn lemma_pieces_nonempty(s: Seq<char>)
    ensures
        pieces(s).len() >= 1,
    decreases s.len(),
{
    if s.len() > 0 {
        lemma_pieces_nonempty(s.drop_last());
    }
}

/// An ASCII letter or digit.
pub open spec fn alnum(c: char) -> bool {
    ('a' <= c && c <= 'z') || ('A' <= c && c <= 'Z') || ('0' <= c && c <= '9')
}

/// May `c` appear in a class segment (or, when `asset`, in an asset segment)?
pub open spec fn segment_char(c: char, asset: bool) -> bool {
    alnum(c) || c == '_' || (asset && (c == '.' || c == '-'))
}

/// Is `s` a legal segment: non-empty, and every character allowed?
pub open spec fn legal_segment(s: Seq<char>, asset: bool) -> bool {
    s.len() > 0 && forall|i: int| 0 <= i < s.len() ==> #[trigger] segment_char(s[i], asset)
}

/// The first piece from index `k` on that is not a legal segment.
pub open spec fn first_bad(ps: Seq<Seq<char>>, k: nat, asset: bool) -> Option<Seq<char>>
    decreases ps.len() - k,
{
    if k >= ps.len() {
        None
    } else if !legal_segment(ps[k as int], asset) {
        Some(ps[k as int])
    } else {
        first_bad(ps, k + 1, asset)
    }
}

/// What parsing yields, as plain values: the mount, or which error with which texts.
pub enum Parsed {
    /// A well-formed path rooted at this mount.
    Good(Mount),
    /// Not starting with `/`.
    NotRooted,
    /// This first segment is not a mount the path kind accepts.
    UnknownMount(Seq<char>),
    /// Nothing after the mount.
    NoClass,
    /// This segment is empty or holds a character it may not.
    BadSegment(Seq<char>),
}

/// Parsing `text` as a class path (`asset == false`) or an asset path (`asset == true`).
pub open spec fn parse(text: Seq<char>, asset: bool) -> Parsed {
    if text.len() == 0 || text[0] != '/' {
        Parsed::NotRooted
    } else {
        let ps = pieces(text.skip(1));
        let m = ps[0];
        if !asset && m == "Core"@ {
            rest_of(ps, Mount::Core, asset)
        } else if m == "Content"@ {
            rest_of(ps, Mount::Content, asset)
        } else {
            Parsed::UnknownMount(m)
        }
    }
}

/// The part of parsing after the mount was recognised.
pub open spec fn rest_of(ps: Seq<Seq<char>>, m: Mount, asset: bool) -> Parsed {
    if ps.len() < 2 {
        Parsed::NoClass
    } else {
        match first_bad(ps, 1, asset) {
            Some(s) => Parsed::BadSegment(s),
            None => Parsed::Good(m),
        }
    }
}

/// Does a parse result match a returned error for `text`?
pub open spec fn error_matches(p: Parsed, text: Seq<char>, e: PathError) -> bool {
    match p {
        Parsed::Good(_) => false,
        Parsed::NotRooted => e matches PathError::NotRooted { text: t } && t@ == text,
        Parsed::UnknownMount(m) => e matches PathError::UnknownMount { text: t, mount: x } && t@
            == text && x@ == m,
        Parsed::NoClass => e matches PathError::NoClass { text: t } && t@ == text,
        Parsed::BadSegment(s) => e matches PathError::BadSegment { text: t, segment: x } && t@
            == text && x@ == s,
    }
}

// ---------------------------------------------------------------------------------------------
// The grammar, executable
// ---------------------------------------------------------------------------------------------

fn is_segment_char(c: char, asset: bool) -> (b: bool)
    ensures
        b == segment_char(c, asset),
{
    ('a' <= c && c <= 'z') || ('A' <= c && c <= 'Z') || ('0' <= c && c <= '9') || c == '_' || (
    asset && (c == '.' || c == '-'))
}

fn is_legal_segment(s: &[char], asset: bool) -> (b: bool)
    ensures
        b == legal_segment(s@, asset),
{
    if s.len() == 0 {
        return false;
    }
    let mut i: usize = 0;
    while i < s.len()
        invariant
            i <= s@.len(),
            forall|j: int| 0 <= j < i ==> #[trigger] segment_char(s@[j], asset),
        decreases s@.len() - i,
    {
        if !is_segment_char(s[i], asset) {
            return false;
        }
        i += 1;
    }
    true
}

/// The views of a list of character vectors.
pub open spec fn views(v: Seq<Vec<char>>) -> Seq<Seq<char>> {
    v.map_values(|x: Vec<char>| x@)
}

/// Cut `s` at every `/`, from index `from` on.
fn split_pieces(s: &[char], from: usize) -> (out: Vec<Vec<char>>)
    requires
        from <= s@.len(),
    ensures
        views(out@) == pieces(s@.skip(from as int)),
        out@.len() >= 1,
{
    let ghost u = s@.skip(from as int);
    let mut out: Vec<Vec<char>> = Vec::new();
    let mut cur: Vec<char> = Vec::new();
    let mut i: usize = from;
    assert(u.take(0) =~= Seq::<char>::empty());
    while i < s.len()
        invariant
            from <= i <= s@.len(),
            u == s@.skip(from as int),
            pieces(u.take(i - from)) == views(out@).push(cur@),
        decreases s@.len() - i,
    {
        let c = s[i];
        let ghost t = u.take(i - from + 1);
        let ghost before_out = views(out@);
        let ghost before_cur = cur@;
        proof {
            assert(t.drop_last() =~= u.take(i - from));
            assert(t.last() == c);
        }
        if c == '/' {
            out.push(cur);
            cur = Vec::new();
            proof {
                assert(views(out@) =~= before_out.push(before_cur));
                assert(views(out@).push(cur@) =~= before_out.push(before_cur).push(
                    Seq::<char>::empty(),
                ));
            }
        } else {
            cur.push(c);
            proof {
                let w = before_out.push(before_cur);
                assert(w.update(w.len() - 1, w.last().push(c)) =~= before_out.push(cur@));
            }
        }
        i += 1;
    }
    assert(u.take(s@.len() - from) =~= u);
    let ghost before_out = views(out@);
    out.push(cur);
    assert(views(out@) =~= before_out.push(cur@));
    out
}

fn first_bad_exec(ps: &Vec<Vec<char>>, asset: bool) -> (r: Option<usize>)
    requires
        ps@.len() >= 1,
    ensures
        match r {
            Some(k) => 1 <= k < ps@.len() && first_bad(views(ps@), 1, asset) == Some(ps@[k as int]@),
            None => first_bad(views(ps@), 1, asset) is None,
        },
{
    let mut k = ps.len();
    let mut found: Option<usize> = None;
    while k > 1
        invariant
            1 <= k <= ps@.len(),
            match found {
                Some(j) => k <= j < ps@.len() && first_bad(views(ps@), k as nat, asset) == Some(
                    ps@[j as int]@,
                ),
                None => first_bad(views(ps@), k as nat, asset) is None,
            },
        decreases k,
    {
        k -= 1;
        if !is_legal_segment(ps[k].as_slice(), asset) {
            found = Some(k);
        }
    }
    found
}

fn is_word(s: &[char], w: &str) -> (b: bool)
    ensures
        b == (s@ == w@),
{
    let c = chars_of(w);
    same_chars(s, c.as_slice())
}

/// Parse `text`; on success, the mount.
fn parse_exec(text: &str, asset: bool) -> (res: Result<Mount, PathError>)
    ensures
        match res {
            Ok(m) => parse(text@, asset) == Parsed::Good(m),
            Err(e) => error_matches(parse(text@, asset), text@, e),
        },
{
    let c = chars_of(text);
    if c.len() == 0 || c[0] != '/' {
        return Err(PathError::NotRooted { text: String::from_str(text) });
    }
    let ps = split_pieces(c.as_slice(), 1);
    proof {
        assert(views(ps@)[0] == ps@[0]@);
    }
    let m = if !asset && is_word(ps[0].as_slice(), "Core") {
        Mount::Core
    } else if is_word(ps[0].as_slice(), "Content") {
        Mount::Content
    } else {
        return Err(
            PathError::UnknownMount {
                text: String::from_str(text),
                mount: string_from_chars(ps[0].as_slice()),
            },
        );
    };
    if ps.len() < 2 {
        return Err(PathError::NoClass { text: String::from_str(text) });
    }
    match first_bad_exec(&ps, asset) {
        Some(k) => Err(
            PathError::BadSegment {
                text: String::from_str(text),
                segment: string_from_chars(ps[k].as_slice()),
            },
        ),
        None => Ok(m),
    }
}

// ---------------------------------------------------------------------------------------------
// ClassPath
// ---------------------------------------------------------------------------------------------

/// The pieces of a path after its mount: everything past the second `/`-separated piece.
pub open spec fn after_mount(text: Seq<char>) -> Seq<Seq<char>> {
    if pieces(text).len() >= 2 {
        pieces(text).skip(2)
    } else {
        seq![]
    }
}

/// A mount-pointed path to a class: the id in a table, not a module system.
#[derive(Clone, Debug, PartialEq, Eq, PartialOrd, Ord, Hash)]
pub struct ClassPath {
    text: String,
    mount: Mount,
}

impl ClassPath {
    /// The full text.
    pub closed spec fn text(self) -> Seq<char> {
        self.text@
    }

    /// The mount.
    pub closed spec fn mount_spec(self) -> Mount {
        self.mount
    }

    /// The stored text parses, and to the stored mount.
    pub closed spec fn wf(self) -> bool {
        parse(self.text@, false) == Parsed::Good(self.mount)
    }

    /// Parse a mount-pointed path.
    pub fn new(text: &str) -> (res: Result<ClassPath, PathError>)
        ensures
            match res {
                Ok(p) => p.wf() && p.text() == text@ && parse(text@, false) == Parsed::Good(
                    p.mount_spec(),
                ),
                Err(e) => error_matches(parse(text@, false), text@, e),
            },
    {
        let m = parse_exec(text, false)?;
        Ok(ClassPath { text: String::from_str(text), mount: m })
    }

    /// A path from a literal that is known to be valid.
    pub fn core_literal(text: &str) -> (p: ClassPath)
        requires
            parse(text@, false) is Good,
        ensures
            p.wf(),
            p.text() == text@,
    {
        match ClassPath::new(text) {
            Ok(p) => p,
            Err(_) => {
                assert(false);
                ClassPath { text: String::new(), mount: Mount::Core }
            },
        }
    }

    /// The full text, mount included.
    pub fn as_str(&self) -> (s: &str)
        ensures
            s@ == self.text(),
    {
        self.text.as_str()
    }

    /// Which mount it is rooted at.
    pub fn mount(&self) -> (m: Mount)
        ensures
            m == self.mount_spec(),
    {
        self.mount
    }

    /// The segments after the mount: the text split at every `/`, less the empty piece before
    /// the leading slash and the mount itself.
    pub fn segments(&self) -> (v: Vec<String>)
        ensures
            v@.map_values(|s: String| s@) == after_mount(self.text()),
    {
        let c = chars_of(self.text.as_str());
        let ps = split_pieces(c.as_slice(), 0);
        proof {
            assert(c@.skip(0) =~= c@);
        }
        let mut v: Vec<String> = Vec::new();
        if ps.len() < 2 {
            proof {
                assert(v@.map_values(|s: String| s@) =~= Seq::<Seq<char>>::empty());
            }
            return v;
        }
        let mut i: usize = 2;
        while i < ps.len()
            invariant
                2 <= i <= ps@.len(),
                views(ps@) == pieces(self.text()),
                v@.map_values(|s: String| s@) == views(ps@).subrange(2, i as int),
            decreases ps@.len() - i,
        {
            let piece = string_from_chars(ps[i].as_slice());
            let ghost before = v@.map_values(|s: String| s@);
            v.push(piece);
            proof {
                assert(v@.map_values(|s: String| s@) =~= before.push(ps@[i as int]@));
                assert(views(ps@).subrange(2, i + 1) =~= views(ps@).subrange(2, i as int).push(
                    ps@[i as int]@,
                ));
            }
            i += 1;
        }
        assert(views(ps@).subrange(2, ps@.len() as int) =~= views(ps@).skip(2));
        v
    }

    /// The last segment: the class's own name.
    pub fn leaf(&self) -> (s: String)
        ensures
            s@ == pieces(self.text()).last(),
    {
        let c = chars_of(self.text.as_str());
        let ps = split_pieces(c.as_slice(), 0);
        assert(c@.skip(0) =~= c@);
        string_from_chars(ps[ps.len() - 1].as_slice())
    }

    /// The path with the last segment removed, when that is still a class path. Folder nesting,
    /// not inheritance.
    pub fn folder(&self) -> (f: Option<ClassPath>)
        ensures
            match f {
                Some(p) => p.wf() && exists|cut: int|
                    0 <= cut < self.text().len() && self.text()[cut] == '/' && (forall|j: int|
                        cut < j < self.text().len() ==> self.text()[j] != '/')
                        && p.text() == self.text().take(cut),
                None => forall|cut: int|
                    0 <= cut < self.text().len() && self.text()[cut] == '/' && (forall|j: int|
                        cut < j < self.text().len() ==> self.text()[j] != '/') ==> !(parse(
                        self.text().take(cut),
                        false,
                    ) is Good),
            },
    {
        let c = chars_of(self.text.as_str());
        let mut k = c.len();
        while k > 0 && c[k - 1] != '/'
            invariant
                k <= c@.len(),
                c@ == self.text(),
                forall|j: int| k <= j < c@.len() ==> c@[j] != '/',
            decreases k,
        {
            k -= 1;
        }
        if k == 0 {
            proof {
                assert forall|other: int|
                    0 <= other < self.text().len() && self.text()[other] == '/' implies false by {
                    assert(c@[other] != '/');
                }
            }
            return None;
        }
        let cut = k - 1;
        let prefix = vstd::slice::slice_subrange(c.as_slice(), 0, cut);
        let t = string_from_chars(prefix);
        proof {
            assert(prefix@ =~= self.text().take(cut as int));
        }
        proof {
            assert(self.text()[cut as int] == '/');
            assert forall|other: int|
                0 <= other < self.text().len() && self.text()[other] == '/' && (forall|j: int|
                    other < j < self.text().len() ==> self.text()[j] != '/') implies other
                == cut by {
                if other < cut {
                    assert(self.text()[cut as int] != '/');
                }
            }
        }
        match parse_exec(t.as_str(), false) {
            Ok(m) => Some(ClassPath { text: t, mount: m }),
            Err(_) => None,
        }
    }
}

/// **A path names one class forever**: a path parses exactly when its text does, the text is kept
/// verbatim, and the mount is the one the text names.
pub proof fn law_class_path_mount_is_named(text: Seq<char>)
    requires
        parse(text, false) is Good,
    ensures
        text.len() > 0 && text[0] == '/',
        parse(text, false) == Parsed::Good(Mount::Core) ==> pieces(text.skip(1))[0] == "Core"@,
        parse(text, false) == Parsed::Good(Mount::Content) ==> pieces(text.skip(1))[0]
            == "Content"@,
{
}

// ---------------------------------------------------------------------------------------------
// AssetPath
// ---------------------------------------------------------------------------------------------

/// A path to a file on disk, always under `/Content`.
#[derive(Clone, Debug, PartialEq, Eq, PartialOrd, Ord, Hash)]
pub struct AssetPath {
    text: String,
}

/// ASCII lowercase of one character.
pub open spec fn lower(c: char) -> char {
    if 'A' <= c && c <= 'Z' {
        ((c as u8) + 32) as char
    } else {
        c
    }
}

impl AssetPath {
    /// The full text.
    pub closed spec fn text(self) -> Seq<char> {
        self.text@
    }

    /// The stored text parses as an asset path.
    pub closed spec fn wf(self) -> bool {
        parse(self.text@, true) is Good
    }

    /// Parse an asset path. Must be under `/Content`: core owns no files.
    pub fn new(text: &str) -> (res: Result<AssetPath, PathError>)
        ensures
            match res {
                Ok(p) => p.wf() && p.text() == text@ && parse(text@, true) == Parsed::Good(
                    Mount::Content,
                ),
                Err(e) => error_matches(parse(text@, true), text@, e),
            },
    {
        let m = parse_exec(text, true)?;
        proof {
            let ps = pieces(text@.skip(1));
            if ps[0] == "Content"@ {
            } else {
                assert(parse(text@, true) is UnknownMount);
            }
        }
        Ok(AssetPath { text: String::from_str(text) })
    }

    /// The full text.
    pub fn as_str(&self) -> (s: &str)
        ensures
            s@ == self.text(),
    {
        self.text.as_str()
    }

    /// The filename: the last segment.
    pub fn file_name(&self) -> (s: String)
        ensures
            s@ == pieces(self.text()).last(),
    {
        let c = chars_of(self.text.as_str());
        let ps = split_pieces(c.as_slice(), 0);
        assert(c@.skip(0) =~= c@);
        string_from_chars(ps[ps.len() - 1].as_slice())
    }

    /// The extension, lowercased, without the dot: what follows the last `.` of the filename.
    pub fn extension(&self) -> (e: Option<String>)
        ensures
            ({
                let name = pieces(self.text()).last();
                match e {
                    Some(x) => exists|d: int|
                        0 <= d < name.len() && name[d] == '.' && (forall|j: int|
                            d < j < name.len() ==> name[j] != '.') && x@ == name.skip(d + 1).map_values(
                            |c: char| lower(c),
                        ),
                    None => forall|j: int| 0 <= j < name.len() ==> name[j] != '.',
                }
            }),
    {
        let c = chars_of(self.text.as_str());
        let ps = split_pieces(c.as_slice(), 0);
        assert(c@.skip(0) =~= c@);
        let name = &ps[ps.len() - 1];
        let mut k = name.len();
        while k > 0 && name[k - 1] != '.'
            invariant
                k <= name@.len(),
                forall|j: int| k <= j < name@.len() ==> name@[j] != '.',
            decreases k,
        {
            k -= 1;
        }
        if k == 0 {
            return None;
        }
        let mut out: Vec<char> = Vec::new();
        let mut i = k;
        while i < name.len()
            invariant
                k <= i <= name@.len(),
                out@ == name@.subrange(k as int, i as int).map_values(|c: char| lower(c)),
            decreases name@.len() - i,
        {
            let ch = name[i];
            let l = if 'A' <= ch && ch <= 'Z' {
                ((ch as u8) + 32) as char
            } else {
                ch
            };
            out.push(l);
            proof {
                assert(name@.subrange(k as int, i + 1).map_values(|c: char| lower(c)) =~= name@.subrange(
                    k as int,
                    i as int,
                ).map_values(|c: char| lower(c)).push(lower(ch)));
            }
            i += 1;
        }
        let r = string_from_chars(out.as_slice());
        proof {
            let d = k - 1;
            assert(name@.subrange(k as int, name@.len() as int) =~= name@.skip(k as int));
            assert(views(ps@).last() == name@);
            assert(name@.skip(d + 1) == name@.skip(k as int));
            assert(r@ == name@.skip(d + 1).map_values(|c: char| lower(c)));
            assert(0 <= d < name@.len() && name@[d] == '.');
            let nm = pieces(self.text()).last();
            assert(nm == name@);
            assert(exists|d: int|
                0 <= d < nm.len() && nm[d] == '.' && (forall|j: int| d < j < nm.len() ==> nm[j] != '.')
                    && r@ == nm.skip(d + 1).map_values(|c: char| lower(c)));
        }
        Some(r)
    }
}

// ---------------------------------------------------------------------------------------------
// On the wire
// ---------------------------------------------------------------------------------------------

impl DeepView for ClassPath {
    type V = Seq<char>;

    closed spec fn deep_view(&self) -> Seq<char> {
        self.text@
    }
}

impl ClassPath {
    /// A path's deep view is its text.
    pub broadcast proof fn lemma_deep_view_is_text(p: ClassPath)
        ensures
            #[trigger] p.deep_view() == p.text(),
    {
    }
}

impl Serialize for ClassPath {
    open spec fn encodable(v: Seq<char>) -> bool {
        encode_utf8(v).len() <= u32::MAX
    }

    open spec fn encoding(v: Seq<char>) -> Seq<u8> {
        enc_str(v)
    }

    fn serialize(&self, w: &mut Writer) {
        w.str(self.text.as_str());
    }
}

impl Deserialize for ClassPath {
    /// Rebuilt from the wire without re-validating: a path that was valid when written is valid
    /// when read, and a parse here would turn a byte-level corruption into a parse error naming
    /// the wrong cause. Any string is taken as it stands.
    open spec fn decoding(rest: Seq<u8>) -> Result<(Seq<char>, nat), SerError> {
        dec_str(rest)
    }

    fn deserialize(r: &mut Reader<'_>) -> (res: SerResult<ClassPath>) {
        let text = r.str()?;
        let mount = ClassPath::root_of(text.as_str());
        Ok(ClassPath { text, mount })
    }
}

impl ClassPath {
    /// The mount a text is rooted at: what it parses to, and `Content` for a text that does not
    /// parse.
    fn root_of(text: &str) -> (m: Mount)
        ensures
            match parse(text@, false) {
                Parsed::Good(g) => m == g,
                _ => m == Mount::Content,
            },
    {
        match parse_exec(text, false) {
            Ok(m) => m,
            Err(_) => Mount::Content,
        }
    }
}

impl Codec for ClassPath {
    proof fn lemma_round_trip(v: Seq<char>, rest: Seq<u8>) {
        <String as Codec>::lemma_round_trip(v, rest);
    }
}

impl DeepView for AssetPath {
    type V = Seq<char>;

    closed spec fn deep_view(&self) -> Seq<char> {
        self.text@
    }
}

impl Serialize for AssetPath {
    open spec fn encodable(v: Seq<char>) -> bool {
        encode_utf8(v).len() <= u32::MAX && parse(v, true) is Good
    }

    open spec fn encoding(v: Seq<char>) -> Seq<u8> {
        enc_str(v)
    }

    fn serialize(&self, w: &mut Writer) {
        w.str(self.text.as_str());
    }
}

impl Deserialize for AssetPath {
    open spec fn decoding(rest: Seq<u8>) -> Result<(Seq<char>, nat), SerError> {
        match dec_str(rest) {
            Err(e) => Err(e),
            Ok((t, k)) => if parse(t, true) is Good {
                Ok((t, k))
            } else {
                Err(SerError::InvalidValue("malformed asset path"))
            },
        }
    }

    fn deserialize(r: &mut Reader<'_>) -> (res: SerResult<AssetPath>) {
        let text = r.str()?;
        match AssetPath::new(text.as_str()) {
            Ok(p) => Ok(p),
            Err(_) => Err(SerError::InvalidValue("malformed asset path")),
        }
    }
}

impl Codec for AssetPath {
    proof fn lemma_round_trip(v: Seq<char>, rest: Seq<u8>) {
        <String as Codec>::lemma_round_trip(v, rest);
    }
}

} // verus!
