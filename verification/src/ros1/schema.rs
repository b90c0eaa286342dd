//! Parsing of ROS1 message definitions: the root message and the dependent
//! `MSG:` blocks, each line a field `type name`, `type[]` or `type[N]`.

use vstd::prelude::*;
use vstd::string::StrSliceExecFns;
use vstd::string::StringExecFns;
use crate::error::{Error, Result};
use crate::text::{piece, pieces, split_ranges, trim_range, word_ranges, line_ranges, starts_with_at, split_str_ranges, spec_lines, spec_split_str, spec_trim, spec_words, lemma_find_first, chars_of, contains_char, find_char, parse_usize, parse_usize_error, spec_find, spec_parse_usize, spec_parse_usize_error, spec_split, str_eq};

verus! {

/// How many values a field holds.
#[derive(Debug, Clone, Copy, PartialEq, Eq)]
pub enum RosArray {
    /// A single value.
    Single,
    /// A fixed number of values.
    Fixed(usize),
    /// A `u32` count followed by that many values.
    Variable,
}

/// The type of a field's values.
#[derive(Debug, Clone)]
pub enum RosType {
    Bool,
    I8,
    U8,
    I16,
    U16,
    I32,
    U32,
    I64,
    U64,
    F32,
    F64,
    String,
    Time,
    Duration,
    /// A nested message, by its full name (`package/Type`).
    Named(String),
}

/// The abstract value of a `RosType`: the nested name as characters.
pub enum TypeView {
    Bool,
    I8,
    U8,
    I16,
    U16,
    I32,
    U32,
    I64,
    U64,
    F32,
    F64,
    String,
    Time,
    Duration,
    Named(Seq<char>),
}

impl View for RosType {
    type V = TypeView;

    open spec fn view(&self) -> TypeView {
        match self {
            RosType::Bool => TypeView::Bool,
            RosType::I8 => TypeView::I8,
            RosType::U8 => TypeView::U8,
            RosType::I16 => TypeView::I16,
            RosType::U16 => TypeView::U16,
            RosType::I32 => TypeView::I32,
            RosType::U32 => TypeView::U32,
            RosType::I64 => TypeView::I64,
            RosType::U64 => TypeView::U64,
            RosType::F32 => TypeView::F32,
            RosType::F64 => TypeView::F64,
            RosType::String => TypeView::String,
            RosType::Time => TypeView::Time,
            RosType::Duration => TypeView::Duration,
            RosType::Named(n) => TypeView::Named(n@),
        }
    }
}

/// One field of a message definition.
#[derive(Debug)]
pub struct RosField {
    pub name: String,
    pub ty: RosType,
    pub array: RosArray,
}

/// The abstract value of a field: name, type and arity.
pub type FieldView = (Seq<char>, TypeView, RosArray);

impl View for RosField {
    type V = FieldView;

    open spec fn view(&self) -> FieldView {
        (self.name@, self.ty@, self.array)
    }
}

/// The fields of a field list, as abstract values.
pub open spec fn fields_view(fs: Seq<RosField>) -> Seq<FieldView> {
    fs.map_values(|f: RosField| f@)
}

/// A message definition: its fields in order.
#[derive(Debug)]
pub struct RosMessage {
    pub fields: Vec<RosField>,
}

impl View for RosMessage {
    type V = Seq<FieldView>;

    open spec fn view(&self) -> Seq<FieldView> {
        fields_view(self.fields@)
    }
}

/// The package of a root message name: the text before its first `/`.
pub open spec fn spec_root_pkg(root: Seq<char>) -> Seq<char> {
    spec_split(root, '/')[0]
}

/// The package of a root name is the text before its first `/`: it holds
/// no `/`, it begins the root name, and in the root name it is followed by
/// `/` unless it is the whole name (a root name without `/`).
pub proof fn lemma_root_pkg(root: Seq<char>)
    ensures
        forall|i: int| 0 <= i < spec_root_pkg(root).len() ==> spec_root_pkg(root)[i] != '/',
        spec_root_pkg(root).len() <= root.len(),
        root.subrange(0, spec_root_pkg(root).len() as int) == spec_root_pkg(root),
        spec_root_pkg(root).len() < root.len() ==> root[spec_root_pkg(root).len() as int] == '/',
{
    crate::text::lemma_split_first(root, '/');
}

/// For a root name `p/T` with a package `p` that holds no `/`, the package is `p`.
pub proof fn lemma_root_pkg_of(p: Seq<char>, rest: Seq<char>)
    requires
        forall|i: int| 0 <= i < p.len() ==> p[i] != '/',
    ensures
        spec_root_pkg(p + seq!['/'] + rest) == p,
{
    let root = p + seq!['/'] + rest;
    lemma_root_pkg(root);
    let k = spec_root_pkg(root);
    assert(root[p.len() as int] == '/');
    if k.len() < p.len() {
        assert(root[k.len() as int] == p[k.len() as int]);
    }
    if k.len() > p.len() {
        assert(k[p.len() as int] == root.subrange(0, k.len() as int)[p.len() as int]);
    }
    assert(k.len() == p.len());
    assert(root.subrange(0, p.len() as int) =~= p);
}

/// A type name qualified by the root package unless it already names a
/// package (or there is no package).
pub open spec fn spec_normalize(ty_name: Seq<char>, root_pkg: Seq<char>) -> Seq<char> {
    if ty_name.contains('/') || root_pkg.len() == 0 {
        ty_name
    } else {
        root_pkg + seq!['/'] + ty_name
    }
}

/// The type that a (non-array) type name denotes.
pub open spec fn spec_parse_type(t: Seq<char>, root_pkg: Seq<char>) -> TypeView {
    if t == "bool"@ {
        TypeView::Bool
    } else if t == "int8"@ || t == "char"@ {
        TypeView::I8
    } else if t == "uint8"@ || t == "byte"@ {
        TypeView::U8
    } else if t == "int16"@ {
        TypeView::I16
    } else if t == "uint16"@ {
        TypeView::U16
    } else if t == "int32"@ {
        TypeView::I32
    } else if t == "uint32"@ {
        TypeView::U32
    } else if t == "int64"@ {
        TypeView::I64
    } else if t == "uint64"@ {
        TypeView::U64
    } else if t == "float32"@ {
        TypeView::F32
    } else if t == "float64"@ {
        TypeView::F64
    } else if t == "string"@ {
        TypeView::String
    } else if t == "time"@ {
        TypeView::Time
    } else if t == "duration"@ {
        TypeView::Duration
    } else {
        TypeView::Named(spec_normalize(t, root_pkg))
    }
}

/// A field type split into its base name and arity; `None` when the
/// brackets are unclosed or the length is not a `usize`.
pub open spec fn spec_parse_array(t: Seq<char>) -> Option<(Seq<char>, RosArray)> {
    match spec_find(t, '[') {
        None => Some((t, RosArray::Single)),
        Some(st) => match spec_find(t.skip(st), ']') {
            None => None,
            Some(off) => {
                let inner = t.subrange(st + 1, st + off);
                if inner.len() == 0 {
                    Some((t.take(st), RosArray::Variable))
                } else {
                    match spec_parse_usize(inner) {
                        Some(n) => Some((t.take(st), RosArray::Fixed(n))),
                        None => None,
                    }
                }
            },
        },
    }
}

/// The message of the error for a field type that `spec_parse_array`
/// refuses: an unclosed bracket, or the `usize` parse error of the length.
pub open spec fn spec_parse_array_error(t: Seq<char>) -> Seq<char> {
    match spec_find(t, '[') {
        None => Seq::empty(),
        Some(st) => match spec_find(t.skip(st), ']') {
            None => "Invalid ROS array type"@,
            Some(off) => spec_parse_usize_error(t.subrange(st + 1, st + off)),
        },
    }
}

/// `ty_name` qualified by `root_pkg` (see `spec_normalize`).
pub fn normalize_type_name(ty_name: &str, root_pkg: &str) -> (r: String)
    ensures
        r@ == spec_normalize(ty_name@, root_pkg@),
{
    let t = chars_of(ty_name);
    let n = t.len();
    if contains_char(&t, 0, n, '/') || root_pkg.unicode_len() == 0 {
        assert(t@.subrange(0, n as int) =~= ty_name@);
        return ty_name.to_owned();
    }
    assert(t@.subrange(0, n as int) =~= ty_name@);
    let mut out = String::from_str(root_pkg);
    out.append("/");
    out.append(ty_name);
    proof {
        reveal_strlit("/");
        assert(out@ =~= root_pkg@ + seq!['/'] + ty_name@);
    }
    out
}

/// The type that `ty_name` denotes, nested names qualified by `root_pkg`.
pub fn parse_ros1_type(ty_name: &str, root_pkg: &str) -> (r: RosType)
    ensures
        r@ == spec_parse_type(ty_name@, root_pkg@),
{
    if str_eq(ty_name, "bool") {
        RosType::Bool
    } else if str_eq(ty_name, "int8") || str_eq(ty_name, "char") {
        RosType::I8
    } else if str_eq(ty_name, "uint8") || str_eq(ty_name, "byte") {
        RosType::U8
    } else if str_eq(ty_name, "int16") {
        RosType::I16
    } else if str_eq(ty_name, "uint16") {
        RosType::U16
    } else if str_eq(ty_name, "int32") {
        RosType::I32
    } else if str_eq(ty_name, "uint32") {
        RosType::U32
    } else if str_eq(ty_name, "int64") {
        RosType::I64
    } else if str_eq(ty_name, "uint64") {
        RosType::U64
    } else if str_eq(ty_name, "float32") {
        RosType::F32
    } else if str_eq(ty_name, "float64") {
        RosType::F64
    } else if str_eq(ty_name, "string") {
        RosType::String
    } else if str_eq(ty_name, "time") {
        RosType::Time
    } else if str_eq(ty_name, "duration") {
        RosType::Duration
    } else {
        RosType::Named(normalize_type_name(ty_name, root_pkg))
    }
}

/// Split a field type into its base name and arity: `T` (one value),
/// `T[]` (counted) or `T[N]` (fixed). Unclosed brackets and a length that is
/// not a `usize` are refused.
pub fn parse_ros1_array(ty_name: &str) -> (r: Result<(String, RosArray)>)
    ensures
        match r {
            Ok((base, arr)) => spec_parse_array(ty_name@) == Some((base@, arr)),
            Err(e) => spec_parse_array(ty_name@) is None
                && crate::error::invalid_with(e, spec_parse_array_error(ty_name@)),
        },
{
    let t = chars_of(ty_name);
    let n = t.len();
    assert(t@.subrange(0, n as int) =~= ty_name@);
    match find_char(&t, 0, n, '[') {
        None => Ok((ty_name.to_owned(), RosArray::Single)),
        Some(start) => array_from_bracket(ty_name, &t, start),
    }
}

/// `parse_ros1_array` once the first `[` is known to stand at `start`.
fn array_from_bracket(ty_name: &str, t: &Vec<char>, start: usize) -> (r: Result<(String, RosArray)>)
    requires
        t@ == ty_name@,
        spec_find(ty_name@, '[') == Some(start as int),
    ensures
        match r {
            Ok((base, arr)) => spec_parse_array(ty_name@) == Some((base@, arr)),
            Err(e) => spec_parse_array(ty_name@) is None
                && crate::error::invalid_with(e, spec_parse_array_error(ty_name@)),
        },
{
    let n = t.len();
    proof { lemma_find_hit(ty_name@, '[', start as int); }
    let ghost w = ty_name@.skip(start as int);
    assert(t@.subrange(start as int, n as int) =~= w);
    let close = find_char(t, start, n, ']');
    if close.is_none() {
        proof { reveal_strlit("Invalid ROS array type"); }
        return Err(Error::InvalidRecord("Invalid ROS array type".to_owned()));
    }
    let off = close.unwrap();
    proof {
        lemma_find_hit(w, ']', off as int);
        assert(w[0] == '[');
    }
    let end = start + off;
    let base = ty_name.substring_char(0, start).to_owned();
    assert(base@ =~= ty_name@.take(start as int));
    if end == start + 1 {
        assert(ty_name@.subrange(start + 1, end as int).len() == 0);
        Ok((base, RosArray::Variable))
    } else {
        assert(t@.subrange(start + 1, end as int) =~= ty_name@.subrange(start + 1, end as int));
        match parse_usize(t, start + 1, end) {
            Some(len) => Ok((base, RosArray::Fixed(len))),
            None => Err(Error::InvalidRecord(parse_usize_error(t, start + 1, end).to_owned())),
        }
    }
}

/// The index that `spec_find` returns holds the character.
proof fn lemma_find_hit(s: Seq<char>, c: char, i: int)
    requires
        spec_find(s, c) == Some(i),
    ensures
        0 <= i < s.len(),
        s[i] == c,
{
    reveal(spec_find);
    lemma_find_first(s, c);
}

/// The line that separates the blocks of a ROS1 message definition.
pub open spec fn block_separator() -> Seq<char> {
    "\n================================================================================\n"@
}

/// The header that names a dependent message block.
pub open spec fn msg_header() -> Seq<char> {
    "MSG: "@
}

/// What one definition line contributes.
pub enum LineView {
    /// A blank line, a comment or a constant.
    Skip,
    /// A field.
    Field(FieldView),
    /// A malformed line.
    Bad,
}

/// The meaning of one definition line: text after `#` is ignored; an empty
/// rest or one holding `=` (a constant) is skipped; otherwise its first two
/// words are the type and the name of a field.
pub open spec fn spec_line(line: Seq<char>, pkg: Seq<char>) -> LineView {
    let l = spec_trim(spec_split(line, '#')[0]);
    if l.len() == 0 || l.contains('=') {
        LineView::Skip
    } else {
        let w = spec_words(l);
        if w.len() < 2 {
            LineView::Bad
        } else {
            match spec_parse_array(w[0]) {
                None => LineView::Bad,
                Some((b, a)) => LineView::Field((w[1], spec_parse_type(b, pkg), a)),
            }
        }
    }
}

/// The fields of a list of definition lines; `None` at the first bad line.
pub open spec fn spec_fields(lines: Seq<Seq<char>>, pkg: Seq<char>) -> Option<Seq<FieldView>>
    decreases lines.len(),
{
    if lines.len() == 0 {
        Some(Seq::empty())
    } else {
        match spec_fields(lines.drop_last(), pkg) {
            None => None,
            Some(fs) => match spec_line(lines.last(), pkg) {
                LineView::Skip => Some(fs),
                LineView::Field(f) => Some(fs.push(f)),
                LineView::Bad => None,
            },
        }
    }
}

/// Whether a block starts with a `MSG: ` header line.
pub open spec fn has_header(ls: Seq<Seq<char>>) -> bool {
    ls.len() > 0 && ls[0].len() >= 5 && ls[0].take(5) == msg_header()
}

/// One block of a definition: its full message name and fields. The root
/// block has no header and takes `root`'s name.
pub open spec fn spec_block(block: Seq<char>, root: Seq<char>, pkg: Seq<char>) -> Option<(Seq<char>, Seq<FieldView>)> {
    let ls = spec_lines(block);
    let name = if has_header(ls) { spec_trim(ls[0].skip(5)) } else { root };
    let fl = if has_header(ls) { ls.skip(1) } else { ls };
    match spec_fields(fl, pkg) {
        None => None,
        Some(fs) => Some((spec_normalize(name, pkg), fs)),
    }
}

/// True when no name occurs twice.
pub open spec fn distinct_names<V>(e: Seq<(Seq<char>, V)>) -> bool {
    forall|i: int, j: int|
        0 <= i < e.len() && 0 <= j < e.len() && i != j ==> #[trigger] e[i].0 != #[trigger] e[j].0
}

/// The entries after storing `v` under `k`: an entry for `k` is replaced,
/// otherwise the pair is appended.
pub open spec fn spec_upsert<V>(e: Seq<(Seq<char>, V)>, k: Seq<char>, v: V) -> Seq<(Seq<char>, V)> {
    if exists|i: int| 0 <= i < e.len() && #[trigger] e[i].0 == k {
        let i = choose|i: int| 0 <= i < e.len() && #[trigger] e[i].0 == k;
        e.update(i, (k, v))
    } else {
        e.push((k, v))
    }
}

/// The value stored under `k`, if any.
pub open spec fn spec_lookup<V>(e: Seq<(Seq<char>, V)>, k: Seq<char>) -> Option<V> {
    if exists|i: int| 0 <= i < e.len() && #[trigger] e[i].0 == k {
        let i = choose|i: int| 0 <= i < e.len() && #[trigger] e[i].0 == k;
        Some(e[i].1)
    } else {
        None
    }
}

/// The messages of a list of blocks, a later block replacing an earlier one
/// of the same name; `None` at the first bad block.
pub open spec fn spec_defs(blocks: Seq<Seq<char>>, root: Seq<char>, pkg: Seq<char>)
    -> Option<Seq<(Seq<char>, Seq<FieldView>)>>
    decreases blocks.len(),
{
    if blocks.len() == 0 {
        Some(Seq::empty())
    } else {
        match spec_defs(blocks.drop_last(), root, pkg) {
            None => None,
            Some(e) => match spec_block(blocks.last(), root, pkg) {
                None => None,
                Some((n, fs)) => Some(spec_upsert(e, n, fs)),
            },
        }
    }
}

/// The messages that a ROS1 definition text declares for the root type `root`.
pub open spec fn spec_definitions(text: Seq<char>, root: Seq<char>) -> Option<Seq<(Seq<char>, Seq<FieldView>)>> {
    spec_defs(spec_split_str(text, block_separator()), root, spec_root_pkg(root))
}

/// The message definitions of a schema, by full name.
#[derive(Debug)]
pub struct RosDefinitions {
    entries: Vec<(String, RosMessage)>,
}

/// The abstract value of a list of named messages.
pub open spec fn defs_view(e: Seq<(String, RosMessage)>) -> Seq<(Seq<char>, Seq<FieldView>)> {
    e.map_values(|p: (String, RosMessage)| (p.0@, p.1@))
}

impl View for RosDefinitions {
    type V = Seq<(Seq<char>, Seq<FieldView>)>;

    closed spec fn view(&self) -> Self::V {
        defs_view(self.entries@)
    }
}

impl RosDefinitions {
    /// No message name occurs twice.
    pub closed spec fn well_formed(&self) -> bool {
        distinct_names(self@)
    }

    /// No messages.
    pub fn new() -> (r: RosDefinitions)
        ensures
            r@ == Seq::<(Seq<char>, Seq<FieldView>)>::empty(),
            r.well_formed(),
    {
        let r = RosDefinitions { entries: Vec::new() };
        assert(r@ =~= Seq::<(Seq<char>, Seq<FieldView>)>::empty());
        r
    }

    /// Position of `name`, if present.
    fn position(&self, name: &String) -> (r: Option<usize>)
        ensures
            match r {
                Some(i) => i < self@.len() && self@[i as int].0 == name@,
                None => forall|i: int| 0 <= i < self@.len() ==> #[trigger] self@[i].0 != name@,
            },
    {
        let mut i: usize = 0;
        while i < self.entries.len()
            invariant
                i <= self.entries.len(),
                self@ == defs_view(self.entries@),
                forall|j: int| 0 <= j < i ==> #[trigger] self@[j].0 != name@,
            decreases self.entries.len() - i,
        {
            if self.entries[i].0 == *name {
                return Some(i);
            }
            i += 1;
        }
        None
    }

    /// Store `message` under `name`, replacing an earlier one.
    pub fn insert(&mut self, name: String, message: RosMessage)
        requires
            old(self).well_formed(),
        ensures
            final(self).well_formed(),
            final(self)@ == spec_upsert(old(self)@, name@, message@),
    {
        let ghost k = name@;
        let ghost v = message@;
        match self.position(&name) {
            Some(i) => {
                let ghost old_view = self@;
                self.entries.set(i, (name, message));
                proof {
                    let w = choose|j: int| 0 <= j < old_view.len() && #[trigger] old_view[j].0 == k;
                    assert(old_view[i as int].0 == k);
                    if w != i {
                        assert(old_view[w].0 == old_view[i as int].0);
                    }
                    assert(self@ =~= old_view.update(i as int, (k, v)));
                }
            },
            None => {
                let ghost old_view = self@;
                self.entries.push((name, message));
                assert(self@ =~= old_view.push((k, v)));
            },
        }
    }

    /// The message stored under `name`.
    pub fn get(&self, name: &String) -> (r: Option<&RosMessage>)
        requires
            self.well_formed(),
        ensures
            match r {
                Some(m) => spec_lookup(self@, name@) == Some(m@),
                None => spec_lookup(self@, name@) is None,
            },
    {
        match self.position(name) {
            Some(i) => {
                proof {
                    let w = choose|j: int| 0 <= j < self@.len() && #[trigger] self@[j].0 == name@;
                    assert(self@[i as int].0 == name@);
                    if w != i as int {
                        assert(self@[w].0 == self@[i as int].0);
                    }
                }
                Some(&self.entries[i].1)
            },
            None => None,
        }
    }

    /// Number of messages.
    pub fn len(&self) -> (r: usize)
        ensures
            r == self@.len(),
    {
        self.entries.len()
    }
}

/// Once the fields of a prefix of the lines are refused, so are those of
/// all the lines.
proof fn lemma_fields_refused(lines: Seq<Seq<char>>, pkg: Seq<char>, j: int)
    requires
        0 <= j <= lines.len(),
        spec_fields(lines.take(j), pkg) is None,
    ensures
        spec_fields(lines, pkg) is None,
    decreases lines.len() - j,
{
    if j < lines.len() {
        assert(lines.take(j + 1).drop_last() =~= lines.take(j));
        lemma_fields_refused(lines, pkg, j + 1);
    } else {
        assert(lines.take(j) =~= lines);
    }
}

/// Once a prefix of the blocks is refused, so are all the blocks.
proof fn lemma_defs_refused(blocks: Seq<Seq<char>>, root: Seq<char>, pkg: Seq<char>, j: int)
    requires
        0 <= j <= blocks.len(),
        spec_defs(blocks.take(j), root, pkg) is None,
    ensures
        spec_defs(blocks, root, pkg) is None,
    decreases blocks.len() - j,
{
    if j < blocks.len() {
        assert(blocks.take(j + 1).drop_last() =~= blocks.take(j));
        lemma_defs_refused(blocks, root, pkg, j + 1);
    } else {
        assert(blocks.take(j) =~= blocks);
    }
}

/// The field that definition line `v[lo..hi]` declares, if any.
fn parse_field_line(text: &str, v: &Vec<char>, lo: usize, hi: usize, root_pkg: &str) -> (r: Result<Option<RosField>>)
    requires
        v@ == text@,
        lo <= hi <= v@.len(),
    ensures
        match r {
            Ok(None) => spec_line(v@.subrange(lo as int, hi as int), root_pkg@) is Skip,
            Ok(Some(f)) => spec_line(v@.subrange(lo as int, hi as int), root_pkg@) == LineView::Field(f@),
            Err(e) => spec_line(v@.subrange(lo as int, hi as int), root_pkg@) is Bad && e is InvalidRecord,
        },
{
    let ghost line = v@.subrange(lo as int, hi as int);
    let parts = split_ranges(v, lo, hi, '#');
    let (ha, hb) = parts[0];
    assert(piece(v@, parts@[0]) == spec_split(line, '#')[0]);
    let (ta, tb) = trim_range(v, ha, hb);
    let ghost l = v@.subrange(ta as int, tb as int);
    assert(l == spec_trim(spec_split(line, '#')[0]));
    if ta == tb {
        return Ok(None);
    }
    if contains_char(v, ta, tb, '=') {
        return Ok(None);
    }
    let words = word_ranges(v, ta, tb);
    assert(pieces(v@, words@) == spec_words(l));
    if words.len() == 0 {
        return Err(Error::InvalidRecord("Missing field type".to_owned()));
    }
    if words.len() == 1 {
        return Err(Error::InvalidRecord("Missing field name".to_owned()));
    }
    let (a0, b0) = words[0];
    let (a1, b1) = words[1];
    assert(ta <= words@[0].0 <= words@[0].1 <= tb);
    assert(ta <= words@[1].0 <= words@[1].1 <= tb);
    assert(piece(v@, words@[0]) == spec_words(l)[0]);
    assert(piece(v@, words@[1]) == spec_words(l)[1]);
    let ty_raw = text.substring_char(a0, b0);
    let name = text.substring_char(a1, b1).to_owned();
    match parse_ros1_array(ty_raw) {
        Err(e) => Err(e),
        Ok((base, arr)) => {
            let ty = parse_ros1_type(base.as_str(), root_pkg);
            Ok(Some(RosField { name, ty, array: arr }))
        },
    }
}

/// The name and message that block `v[lo..hi]` declares.
fn parse_block(text: &str, v: &Vec<char>, lo: usize, hi: usize, root_name: &str, root_pkg: &str)
    -> (r: Result<(String, RosMessage)>)
    requires
        v@ == text@,
        lo <= hi <= v@.len(),
    ensures
        match r {
            Ok((n, m)) => spec_block(v@.subrange(lo as int, hi as int), root_name@, root_pkg@) == Some((n@, m@)),
            Err(e) => spec_block(v@.subrange(lo as int, hi as int), root_name@, root_pkg@) is None
                && e is InvalidRecord,
        },
{
    let ghost block = v@.subrange(lo as int, hi as int);
    let lines = line_ranges(v, lo, hi);
    let ghost ls = spec_lines(block);
    assert(pieces(v@, lines@) == ls);
    let msg = chars_of("MSG: ");
    proof { reveal_strlit("MSG: "); }
    let mut first: usize = 0;
    let name: String;
    let header = lines.len() > 0 && starts_with_at(v, lines[0].0, lines[0].1, &msg);
    if header {
        let (l0a, l0b) = lines[0];
        assert(lo <= lines@[0].0 <= lines@[0].1 <= hi);
        assert(ls[0] == v@.subrange(l0a as int, l0b as int));
        assert(ls[0].take(5) =~= v@.subrange(l0a as int, l0a + 5));
        assert(ls[0].skip(5) =~= v@.subrange(l0a + 5, l0b as int));
        assert(has_header(ls));
        let (ta, tb) = trim_range(v, l0a + 5, l0b);
        name = text.substring_char(ta, tb).to_owned();
        first = 1;
    } else {
        proof {
            if ls.len() > 0 {
                let (l0a, l0b) = lines@[0];
                assert(lo <= lines@[0].0 <= lines@[0].1 <= hi);
                assert(ls[0] == v@.subrange(l0a as int, l0b as int));
                if ls[0].len() >= 5 {
                    assert(ls[0].take(5) =~= v@.subrange(l0a as int, l0a + 5));
                }
            }
            assert(!has_header(ls));
        }
        name = root_name.to_owned();
    }
    let ghost fl = if has_header(ls) { ls.skip(1) } else { ls };
    let mut fields: Vec<RosField> = Vec::new();
    let mut k = first;
    assert(fl.take(0) =~= Seq::<Seq<char>>::empty());
    while k < lines.len()
        invariant
            v@ == text@,
            lo <= hi <= v@.len(),
            pieces(v@, lines@) == ls,
            forall|j: int| 0 <= j < lines@.len() ==> lo <= (#[trigger] lines@[j]).0 <= lines@[j].1 <= hi,
            first <= k <= lines@.len(),
            ls == spec_lines(v@.subrange(lo as int, hi as int)),
            first == (if has_header(ls) { 1usize } else { 0usize }),
            fl == (if has_header(ls) { ls.skip(1) } else { ls }),
            spec_fields(fl.take(k - first), root_pkg@) == Some(fields_view(fields@)),
        decreases lines@.len() - k,
    {
        let (a, b) = lines[k];
        assert(lo <= lines@[k as int].0 <= lines@[k as int].1 <= hi);
        assert(fl[k - first] == v@.subrange(a as int, b as int));
        let ghost pre = fl.take(k - first);
        assert(fl.take(k - first + 1).drop_last() =~= pre);
        assert(fl.take(k - first + 1).last() == fl[k - first]);
        match parse_field_line(text, v, a, b, root_pkg) {
            Err(e) => {
                proof { lemma_fields_refused(fl, root_pkg@, k - first + 1); }
                return Err(e);
            },
            Ok(None) => {},
            Ok(Some(f)) => {
                let ghost before = fields@;
                fields.push(f);
                assert(fields_view(fields@) =~= fields_view(before).push(f@));
            },
        }
        k += 1;
    }
    assert(fl.take(k - first) =~= fl);
    let full = normalize_type_name(name.as_str(), root_pkg);
    Ok((full, RosMessage { fields }))
}

/// The messages declared by the ROS1 definition `schema_text` of the
/// message type `root_name`: the root block, then `MSG: ` blocks, separated
/// by a line of 80 `=`. Fails at the first malformed field line.
pub fn parse_ros1_definitions(schema_text: &str, root_name: &str) -> (r: Result<RosDefinitions>)
    ensures
        match r {
            Ok(d) => spec_definitions(schema_text@, root_name@) == Some(d@) && d.well_formed(),
            Err(e) => spec_definitions(schema_text@, root_name@) is None && e is InvalidRecord,
        },
{
    let v = chars_of(schema_text);
    let sep = chars_of("\n================================================================================\n");
    proof { reveal_strlit("\n================================================================================\n"); }
    let rc = chars_of(root_name);
    let rparts = split_ranges(&rc, 0, rc.len(), '/');
    assert(rc@.subrange(0, rc@.len() as int) =~= root_name@);
    assert(0 <= rparts@[0].0 <= rparts@[0].1 <= rc@.len());
    let root_pkg = root_name.substring_char(rparts[0].0, rparts[0].1);
    assert(root_pkg@ == spec_root_pkg(root_name@));
    let blocks = split_str_ranges(&v, &sep);
    let ghost bl = spec_split_str(v@, sep@);
    let mut defs = RosDefinitions::new();
    let mut k: usize = 0;
    assert(bl.take(0) =~= Seq::<Seq<char>>::empty());
    while k < blocks.len()
        invariant
            v@ == schema_text@,
            sep@ == block_separator(),
            pieces(v@, blocks@) == bl,
            bl == spec_split_str(schema_text@, block_separator()),
            root_pkg@ == spec_root_pkg(root_name@),
            forall|j: int| 0 <= j < blocks@.len() ==> 0 <= (#[trigger] blocks@[j]).0 <= blocks@[j].1 <= v@.len(),
            k <= blocks@.len(),
            defs.well_formed(),
            spec_defs(bl.take(k as int), root_name@, root_pkg@) == Some(defs@),
        decreases blocks@.len() - k,
    {
        let (a, b) = blocks[k];
        assert(0 <= blocks@[k as int].0 <= blocks@[k as int].1 <= v@.len());
        assert(bl[k as int] == v@.subrange(a as int, b as int));
        let ghost pre = bl.take(k as int);
        assert(bl.take(k + 1).drop_last() =~= pre);
        assert(bl.take(k + 1).last() == bl[k as int]);
        match parse_block(schema_text, &v, a, b, root_name, root_pkg) {
            Err(e) => {
                proof { lemma_defs_refused(bl, root_name@, root_pkg@, k + 1); }
                return Err(e);
            },
            Ok((n, m)) => {
                defs.insert(n, m);
            },
        }
        k += 1;
    }
    assert(bl.take(k as int) =~= bl);
    Ok(defs)
}

/// Qualifying a type name is idempotent: a qualified name is left as it is.
pub proof fn lemma_normalize_idempotent(t: Seq<char>, pkg: Seq<char>)
    ensures
        spec_normalize(spec_normalize(t, pkg), pkg) == spec_normalize(t, pkg),
{
    if !(t.contains('/') || pkg.len() == 0) {
        let n = pkg + seq!['/'] + t;
        assert(n[pkg.len() as int] == '/');
    }
}

} // verus!
