//! Extraction of citations, include directives and bibliography entries from
//! LaTeX text. The scanner walks the text left to right, recognizes the
//! citation and include commands at the earliest position, and never lets two
//! recognized commands overlap, so citation order is the order in the file.
use crate::clean::clean_spec;
use crate::text::{
    chars_vec, match_at, push_all, split, split_spec, starts_with_at, string_of, trim, trim_spec,
};
use vstd::prelude::*;
use vstd::slice::slice_subrange;

verus! {

/// Which citation command a citation was written with.
#[derive(Clone, Copy, PartialEq, Eq, Structural, Debug)]
pub enum CiteKind {
    Cite,
    Citet,
    Citep,
}

/// The command name of a citation kind, without backslash.
pub open spec fn kind_name(k: CiteKind) -> Seq<char> {
    match k {
        CiteKind::Cite => seq!['c', 'i', 't', 'e'],
        CiteKind::Citet => seq!['c', 'i', 't', 'e', 't'],
        CiteKind::Citep => seq!['c', 'i', 't', 'e', 'p'],
    }
}

/// One matched citation command.
pub struct Cite {
    /// The keys as written, in order, possibly with duplicates.
    pub keys: Vec<String>,
    /// The command the citation was written with.
    pub kind: CiteKind,
    /// The exact matched text, the anchor for rewriting.
    pub raw: String,
}

/// The mathematical content of a [`Cite`].
pub struct CiteModel {
    pub keys: Seq<Seq<char>>,
    pub kind: CiteKind,
    pub raw: Seq<char>,
}

impl View for Cite {
    type V = CiteModel;

    open spec fn view(&self) -> CiteModel {
        CiteModel {
            keys: self.keys@.map_values(|k: String| k@),
            kind: self.kind,
            raw: self.raw@,
        }
    }
}

/// One bibliography record: a key and its formatted text.
pub struct BibEntry {
    pub key: String,
    pub text: String,
}

/// The mathematical content of a [`BibEntry`].
pub struct BibModel {
    pub key: Seq<char>,
    pub text: Seq<char>,
}

impl View for BibEntry {
    type V = BibModel;

    open spec fn view(&self) -> BibModel {
        BibModel { key: self.key@, text: self.text@ }
    }
}

/// What one scan over a file yields, in text order: citations and include
/// targets.
pub enum ScanItem {
    Citation(Cite),
    Include(String),
}

/// The mathematical content of a [`ScanItem`].
pub enum ScanModel {
    Citation(CiteModel),
    Include(Seq<char>),
}

impl View for ScanItem {
    type V = ScanModel;

    open spec fn view(&self) -> ScanModel {
        match self {
            ScanItem::Citation(c) => ScanModel::Citation(c@),
            ScanItem::Include(t) => ScanModel::Include(t@),
        }
    }
}

/// The head of the command with number `k`, backslash to opening brace. The
/// numbering fixes the order in which heads are tried at a position; at most
/// one can match there, since each pair differs where one has its brace.
pub open spec fn cmd_head(k: int) -> Seq<char> {
    if k == 0 {
        seq!['\\', 'c', 'i', 't', 'e', '{']
    } else if k == 1 {
        seq!['\\', 'c', 'i', 't', 'e', 't', '{']
    } else if k == 2 {
        seq!['\\', 'c', 'i', 't', 'e', 'p', '{']
    } else if k == 3 {
        seq!['\\', 'i', 'n', 'p', 'u', 't', '{']
    } else if k == 4 {
        seq!['\\', 'i', 'n', 'c', 'l', 'u', 'd', 'e', '{']
    } else {
        seq!['\\', 'i', 'n', 'c', 'l', 'u', 'd', 'e', 'o', 'n', 'l', 'y', '{']
    }
}

/// The number of the command whose head matches at `i`, or 6 when none does.
pub open spec fn cmd_at(s: Seq<char>, i: int) -> int {
    if match_at(s, cmd_head(0), i) {
        0
    } else if match_at(s, cmd_head(1), i) {
        1
    } else if match_at(s, cmd_head(2), i) {
        2
    } else if match_at(s, cmd_head(3), i) {
        3
    } else if match_at(s, cmd_head(4), i) {
        4
    } else if match_at(s, cmd_head(5), i) {
        5
    } else {
        6
    }
}

/// Position of the first `}` at or after `j`, or the length when none is left.
pub open spec fn brace_end(s: Seq<char>, j: int) -> int
    decreases s.len() - j,
        when 0 <= j <= s.len()
{
    if j >= s.len() {
        s.len() as int
    } else if s[j] == '}' {
        j
    } else {
        brace_end(s, j + 1)
    }
}

/// The first `}` lies between `j` and the end.
pub proof fn lemma_brace_end_bounds(s: Seq<char>, j: int)
    requires
        0 <= j <= s.len(),
    ensures
        j <= brace_end(s, j) <= s.len(),
    decreases s.len() - j,
{
    if j >= s.len() {
    } else if s[j] == '}' {
    } else {
        lemma_brace_end_bounds(s, j + 1);
    }
}

/// A command token stands at `i`: a head matches there, and a closing brace
/// follows with at least one character of content before it.
pub open spec fn token_at(s: Seq<char>, i: int) -> bool {
    let k = cmd_at(s, i);
    k < 6 && {
        let e = brace_end(s, i + cmd_head(k).len());
        e < s.len() && e > i + cmd_head(k).len()
    }
}

/// One past the closing brace of the token standing at `i`.
pub open spec fn token_end(s: Seq<char>, i: int) -> int {
    brace_end(s, i + cmd_head(cmd_at(s, i)).len()) + 1
}

/// The content of the token standing at `i`: the characters between the
/// braces.
pub open spec fn token_content(s: Seq<char>, i: int) -> Seq<char> {
    let k = cmd_at(s, i);
    s.subrange(i + cmd_head(k).len(), brace_end(s, i + cmd_head(k).len()))
}

/// The key list of a citation: the content split on commas, each key trimmed.
pub open spec fn keys_of_content(content: Seq<char>) -> Seq<Seq<char>> {
    split_spec(content, seq![',']).map_values(|p: Seq<char>| trim_spec(p))
}

/// The item of the token standing at `i`.
pub open spec fn token_item(s: Seq<char>, i: int) -> ScanModel {
    let k = cmd_at(s, i);
    let content = token_content(s, i);
    if k < 3 {
        ScanModel::Citation(
            CiteModel {
                keys: keys_of_content(content),
                kind: if k == 0 {
                    CiteKind::Cite
                } else if k == 1 {
                    CiteKind::Citet
                } else {
                    CiteKind::Citep
                },
                raw: s.subrange(i, token_end(s, i)),
            },
        )
    } else {
        ScanModel::Include(content)
    }
}

/// All items found from position `i` on: the scanner takes the earliest
/// token, then continues after its closing brace.
pub open spec fn scan_from(s: Seq<char>, i: int) -> Seq<ScanModel>
    decreases s.len() - i,
        when 0 <= i <= s.len()
{
    if i >= s.len() {
        Seq::<ScanModel>::empty()
    } else if token_at(s, i) {
        proof {
            lemma_brace_end_bounds(s, i + cmd_head(cmd_at(s, i)).len());
        }
        seq![token_item(s, i)] + scan_from(s, token_end(s, i))
    } else {
        scan_from(s, i + 1)
    }
}

/// The citations and include directives of `s`, in text order.
pub open spec fn scan_spec(s: Seq<char>) -> Seq<ScanModel> {
    scan_from(s, 0)
}

fn brace_end_run(s: &[char], j: usize) -> (r: usize)
    requires
        j <= s@.len(),
    ensures
        r == brace_end(s@, j as int),
        j <= r <= s@.len(),
    decreases s@.len() - j,
{
    if j >= s.len() {
        s.len()
    } else if s[j] == '}' {
        j
    } else {
        brace_end_run(s, j + 1)
    }
}

/// The head vectors, in command order.
fn cmd_heads() -> (hs: Vec<Vec<char>>)
    ensures
        hs@.len() == 6,
        forall|k: int| 0 <= k < 6 ==> hs@[k]@ == cmd_head(k),
{
    let mut hs: Vec<Vec<char>> = Vec::new();
    let h0: Vec<char> = vec!['\\', 'c', 'i', 't', 'e', '{'];
    let h1: Vec<char> = vec!['\\', 'c', 'i', 't', 'e', 't', '{'];
    let h2: Vec<char> = vec!['\\', 'c', 'i', 't', 'e', 'p', '{'];
    let h3: Vec<char> = vec!['\\', 'i', 'n', 'p', 'u', 't', '{'];
    let h4: Vec<char> = vec!['\\', 'i', 'n', 'c', 'l', 'u', 'd', 'e', '{'];
    let h5: Vec<char> = vec!['\\', 'i', 'n', 'c', 'l', 'u', 'd', 'e', 'o', 'n', 'l', 'y', '{'];
    proof {
        assert(h0@ =~= cmd_head(0));
        assert(h1@ =~= cmd_head(1));
        assert(h2@ =~= cmd_head(2));
        assert(h3@ =~= cmd_head(3));
        assert(h4@ =~= cmd_head(4));
        assert(h5@ =~= cmd_head(5));
    }
    hs.push(h0);
    hs.push(h1);
    hs.push(h2);
    hs.push(h3);
    hs.push(h4);
    hs.push(h5);
    hs
}

fn cmd_at_run(s: &[char], hs: &Vec<Vec<char>>, i: usize) -> (k: usize)
    requires
        i <= s@.len(),
        hs@.len() == 6,
        forall|k: int| 0 <= k < 6 ==> hs@[k]@ == cmd_head(k),
    ensures
        k == cmd_at(s@, i as int),
{
    if starts_with_at(s, hs[0].as_slice(), i) {
        0
    } else if starts_with_at(s, hs[1].as_slice(), i) {
        1
    } else if starts_with_at(s, hs[2].as_slice(), i) {
        2
    } else if starts_with_at(s, hs[3].as_slice(), i) {
        3
    } else if starts_with_at(s, hs[4].as_slice(), i) {
        4
    } else if starts_with_at(s, hs[5].as_slice(), i) {
        5
    } else {
        6
    }
}

/// Splits citation content on commas and trims each key.
fn keys_of(content: &[char]) -> (keys: Vec<String>)
    ensures
        keys@.map_values(|k: String| k@) == keys_of_content(content@),
{
    let comma: Vec<char> = vec![','];
    proof {
        assert(comma@ =~= seq![',']);
    }
    let parts = split(content, comma.as_slice());
    let mut keys: Vec<String> = Vec::new();
    let mut i: usize = 0;
    while i < parts.len()
        invariant
            i <= parts@.len(),
            parts@.map_values(|p: Vec<char>| p@) == split_spec(content@, seq![',']),
            keys@.map_values(|k: String| k@) == split_spec(content@, seq![',']).take(
                i as int,
            ).map_values(|p: Seq<char>| trim_spec(p)),
        decreases parts@.len() - i,
    {
        let t = trim(parts[i].as_slice());
        let ks = string_of(t);
        keys.push(ks);
        proof {
            let sp = split_spec(content@, seq![',']);
            assert(sp.take(i + 1 as int).map_values(|p: Seq<char>| trim_spec(p)) =~= sp.take(
                i as int,
            ).map_values(|p: Seq<char>| trim_spec(p)).push(trim_spec(sp[i as int])));
            assert(parts@[i as int]@ == sp[i as int]);
        }
        i = i + 1;
    }
    proof {
        let sp = split_spec(content@, seq![',']);
        assert(sp.take(sp.len() as int) =~= sp);
    }
    keys
}

/// Scans `text` for citation and include commands, left to right; citations
/// carry their key lists and exact matched text, includes their target.
pub fn scan_document(text: &str) -> (items: Vec<ScanItem>)
    ensures
        items@.map_values(|it: ScanItem| it@) == scan_spec(text@),
{
    let v = chars_vec(text);
    let s = v.as_slice();
    let hs = cmd_heads();
    let mut items: Vec<ScanItem> = Vec::new();
    let mut i: usize = 0;
    while i < s.len()
        invariant
            i <= s@.len(),
            s@ == text@,
            hs@.len() == 6,
            forall|k: int| 0 <= k < 6 ==> hs@[k]@ == cmd_head(k),
            items@.map_values(|it: ScanItem| it@) + scan_from(s@, i as int) == scan_spec(text@),
        decreases s@.len() - i,
    {
        let k = cmd_at_run(s, &hs, i);
        let mut advanced = false;
        if k < 6 {
            let hl = hs[k].len();
            proof {
                assert(hs@[k as int]@.len() == cmd_head(k as int).len());
            }
            let e = brace_end_run(s, i + hl);
            if e < s.len() && e > i + hl {
                let content = slice_subrange(s, i + hl, e);
                proof {
                    assert(content@ =~= token_content(s@, i as int));
                    assert(s@.subrange(i as int, e + 1 as int) =~= s@.subrange(
                        i as int,
                        token_end(s@, i as int),
                    ));
                }
                if k < 3 {
                    let keys = keys_of(content);
                    let kind = if k == 0 {
                        CiteKind::Cite
                    } else if k == 1 {
                        CiteKind::Citet
                    } else {
                        CiteKind::Citep
                    };
                    let raw = string_of(slice_subrange(s, i, e + 1));
                    items.push(ScanItem::Citation(Cite { keys, kind, raw }));
                } else {
                    let target = string_of(content);
                    items.push(ScanItem::Include(target));
                }
                proof {
                    assert(items@.map_values(|it: ScanItem| it@) =~= items@.map_values(
                        |it: ScanItem| it@,
                    ).drop_last().push(token_item(s@, i as int)));
                    assert(items@.map_values(|it: ScanItem| it@).drop_last() + (seq![
                        token_item(s@, i as int),
                    ] + scan_from(s@, token_end(s@, i as int))) =~= items@.map_values(
                        |it: ScanItem| it@,
                    ) + scan_from(s@, token_end(s@, i as int)));
                }
                i = e + 1;
                advanced = true;
            }
        }
        if !advanced {
            proof {
                assert(!token_at(s@, i as int));
            }
            i = i + 1;
        }
    }
    items
}

/// The opening token of a bibliography environment.
pub open spec fn begin_tok() -> Seq<char> {
    seq![
        '\\', 'b', 'e', 'g', 'i', 'n', '{', 't', 'h', 'e', 'b', 'i', 'b', 'l', 'i', 'o', 'g',
        'r', 'a', 'p', 'h', 'y', '}',
    ]
}

/// The closing token of a bibliography environment.
pub open spec fn end_tok() -> Seq<char> {
    seq![
        '\\', 'e', 'n', 'd', '{', 't', 'h', 'e', 'b', 'i', 'b', 'l', 'i', 'o', 'g', 'r', 'a',
        'p', 'h', 'y', '}',
    ]
}

/// The token that opens one bibliography entry.
pub open spec fn bibitem_tok() -> Seq<char> {
    seq!['\\', 'b', 'i', 'b', 'i', 't', 'e', 'm']
}

/// Builds the opening token.
pub(crate) fn begin_tok_vec() -> (v: Vec<char>)
    ensures
        v@ == begin_tok(),
{
    let v: Vec<char> = vec![
        '\\', 'b', 'e', 'g', 'i', 'n', '{', 't', 'h', 'e', 'b', 'i', 'b', 'l', 'i', 'o', 'g',
        'r', 'a', 'p', 'h', 'y', '}',
    ];
    proof {
        assert(v@ =~= begin_tok());
    }
    v
}

/// Builds the closing token.
pub(crate) fn end_tok_vec() -> (v: Vec<char>)
    ensures
        v@ == end_tok(),
{
    let v: Vec<char> = vec![
        '\\', 'e', 'n', 'd', '{', 't', 'h', 'e', 'b', 'i', 'b', 'l', 'i', 'o', 'g', 'r', 'a',
        'p', 'h', 'y', '}',
    ];
    proof {
        assert(v@ =~= end_tok());
    }
    v
}

fn bibitem_tok_vec() -> (v: Vec<char>)
    ensures
        v@ == bibitem_tok(),
{
    let v: Vec<char> = vec!['\\', 'b', 'i', 'b', 'i', 't', 'e', 'm'];
    proof {
        assert(v@ =~= bibitem_tok());
    }
    v
}

/// The bibliography blocks of `s` from position `i` on: each runs from a
/// `\begin{thebibliography}` to the first `\end{thebibliography}` after it,
/// both included; an opening with no closing after it yields nothing more.
pub open spec fn bib_blocks_from(s: Seq<char>, i: int) -> Seq<Seq<char>>
    decreases s.len() - i,
        when 0 <= i <= s.len()
{
    let b = crate::text::find_pos(s, begin_tok(), i);
    if b >= s.len() {
        Seq::<Seq<char>>::empty()
    } else {
        let e = crate::text::find_pos(s, end_tok(), b);
        if e >= s.len() {
            Seq::<Seq<char>>::empty()
        } else {
            proof {
                crate::text::lemma_find_pos_bounds(s, begin_tok(), i);
                crate::text::lemma_find_pos_bounds(s, end_tok(), b);
            }
            seq![s.subrange(b, e + end_tok().len())] + bib_blocks_from(s, e + end_tok().len())
        }
    }
}

fn bib_blocks_run(s: &[char], i: usize, bt: &[char], et: &[char]) -> (res: Vec<Vec<char>>)
    requires
        i <= s@.len(),
        bt@ == begin_tok(),
        et@ == end_tok(),
    ensures
        res@.map_values(|b: Vec<char>| b@) == bib_blocks_from(s@, i as int),
    decreases s@.len() - i,
{
    let b = crate::text::find_pos_run(s, bt, i);
    if b >= s.len() {
        let res: Vec<Vec<char>> = Vec::new();
        proof {
            assert(res@.map_values(|b: Vec<char>| b@) =~= bib_blocks_from(s@, i as int));
        }
        return res;
    }
    let e = crate::text::find_pos_run(s, et, b);
    if e >= s.len() {
        let res: Vec<Vec<char>> = Vec::new();
        proof {
            assert(res@.map_values(|b: Vec<char>| b@) =~= bib_blocks_from(s@, i as int));
        }
        return res;
    }
    proof {
        crate::text::lemma_find_pos_bounds(s@, end_tok(), b as int);
    }
    let stop = e + et.len();
    let mut block: Vec<char> = Vec::new();
    push_all(&mut block, slice_subrange(s, b, stop));
    let mut rest = bib_blocks_run(s, stop, bt, et);
    let mut res: Vec<Vec<char>> = Vec::new();
    res.push(block);
    res.append(&mut rest);
    proof {
        assert(res@.map_values(|b: Vec<char>| b@) =~= bib_blocks_from(s@, i as int));
    }
    res
}

/// The bibliography blocks of `s`, as character vectors.
pub(crate) fn bib_blocks_chars(s: &[char]) -> (res: Vec<Vec<char>>)
    ensures
        res@.map_values(|b: Vec<char>| b@) == bib_blocks_from(s@, 0),
{
    let bt = begin_tok_vec();
    let et = end_tok_vec();
    bib_blocks_run(s, 0, bt.as_slice(), et.as_slice())
}

/// Every bibliography environment of `text`, outermost tokens included, in
/// text order.
pub fn find_thebibliography(text: &str) -> (blocks: Vec<String>)
    ensures
        blocks@.map_values(|b: String| b@) == bib_blocks_from(text@, 0),
{
    let v = chars_vec(text);
    let bt = begin_tok_vec();
    let et = end_tok_vec();
    let raw = bib_blocks_run(v.as_slice(), 0, bt.as_slice(), et.as_slice());
    let mut blocks: Vec<String> = Vec::new();
    let mut i: usize = 0;
    while i < raw.len()
        invariant
            i <= raw@.len(),
            raw@.map_values(|b: Vec<char>| b@) == bib_blocks_from(text@, 0),
            blocks@.map_values(|b: String| b@) == bib_blocks_from(text@, 0).take(i as int),
        decreases raw@.len() - i,
    {
        let sb = string_of(raw[i].as_slice());
        blocks.push(sb);
        proof {
            let g = bib_blocks_from(text@, 0);
            assert(blocks@.map_values(|b: String| b@) =~= g.take(i as int).push(g[i as int]));
            assert(g.take(i + 1 as int) =~= g.take(i as int).push(g[i as int]));
        }
        i = i + 1;
    }
    proof {
        let g = bib_blocks_from(text@, 0);
        assert(g.take(g.len() as int) =~= g);
    }
    blocks
}

/// The region of a block that holds its entries: from the first `\bibitem` to
/// the first `\end{thebibliography}`; nothing when the block has no
/// `\bibitem`.
pub open spec fn bibitems_region(s: Seq<char>) -> Option<Seq<char>> {
    let bs = crate::text::find_pos(s, bibitem_tok(), 0);
    if bs >= s.len() {
        None
    } else {
        let es = crate::text::find_pos(s, end_tok(), 0);
        let hi = if es >= bs {
            es
        } else {
            bs
        };
        Some(s.subrange(bs, hi))
    }
}

fn bibitems_region_run(s: &[char]) -> (r: Option<Vec<char>>)
    ensures
        match r {
            Some(v) => bibitems_region(s@) == Some(v@),
            None => bibitems_region(s@) is None,
        },
{
    let it = bibitem_tok_vec();
    let et = end_tok_vec();
    let bs = crate::text::find_pos_run(s, it.as_slice(), 0);
    if bs >= s.len() {
        return None;
    }
    let es = crate::text::find_pos_run(s, et.as_slice(), 0);
    let hi = if es >= bs {
        es
    } else {
        bs
    };
    let mut v: Vec<char> = Vec::new();
    push_all(&mut v, slice_subrange(s, bs, hi));
    Some(v)
}

/// The slice of `text` between its first `\bibitem` and the closing token,
/// the region the entry parser walks; nothing when no `\bibitem` occurs.
pub fn get_bibitems(text: &str) -> (r: Option<String>)
    ensures
        match r {
            Some(v) => bibitems_region(text@) == Some(v@),
            None => bibitems_region(text@) is None,
        },
{
    let v = chars_vec(text);
    match bibitems_region_run(v.as_slice()) {
        Some(reg) => Some(string_of(reg.as_slice())),
        None => None,
    }
}

/// One entry parsed from a piece between `\bibitem` tokens: newlines are
/// removed, the key is what the first brace pair wraps, the text is the rest,
/// cleaned. A piece with no brace pair yields nothing.
pub open spec fn entry_of_piece(piece: Seq<char>) -> Option<BibModel> {
    let st = crate::text::replace_all_spec(trim_spec(piece), seq!['\n'], Seq::<char>::empty());
    let ob = crate::text::find_pos(st, seq!['{'], 0);
    if ob >= st.len() {
        None
    } else {
        let cb = crate::text::find_pos(st, seq!['}'], ob + 1);
        if cb >= st.len() {
            None
        } else {
            Some(
                BibModel {
                    key: trim_spec(st.subrange(ob + 1, cb)),
                    text: clean_spec(trim_spec(st.subrange(cb + 1, st.len() as int))),
                },
            )
        }
    }
}

fn entry_of_piece_run(piece: &[char]) -> (r: Option<BibEntry>)
    ensures
        match r {
            Some(e) => entry_of_piece(piece@) == Some(e@),
            None => entry_of_piece(piece@) is None,
        },
{
    let nlv: Vec<char> = vec!['\n'];
    let obv: Vec<char> = vec!['{'];
    let cbv: Vec<char> = vec!['}'];
    proof {
        assert(nlv@ =~= seq!['\n']);
        assert(obv@ =~= seq!['{']);
        assert(cbv@ =~= seq!['}']);
    }
    let t = trim(piece);
    let empty: Vec<char> = Vec::new();
    proof {
        assert(empty@ =~= Seq::<char>::empty());
    }
    let st = crate::text::replace_all(t, nlv.as_slice(), empty.as_slice());
    let ob = crate::text::find_pos_run(st.as_slice(), obv.as_slice(), 0);
    if ob >= st.len() {
        return None;
    }
    let cb = crate::text::find_pos_run(st.as_slice(), cbv.as_slice(), ob + 1);
    if cb >= st.len() {
        return None;
    }
    let keyc = trim(slice_subrange(st.as_slice(), ob + 1, cb));
    let key = string_of(keyc);
    let textc = trim(slice_subrange(st.as_slice(), cb + 1, st.len()));
    let rawtext = string_of(textc);
    let text = crate::clean::clean_bib_text(rawtext.as_str());
    Some(BibEntry { key, text })
}

/// The entries of the pieces, in order, skipping pieces with no brace pair.
pub open spec fn entries_of_pieces(ps: Seq<Seq<char>>) -> Seq<BibModel>
    decreases ps.len(),
{
    if ps.len() == 0 {
        Seq::<BibModel>::empty()
    } else {
        entries_of_pieces(ps.drop_last()) + (match entry_of_piece(ps.last()) {
            Some(e) => seq![e],
            None => Seq::<BibModel>::empty(),
        })
    }
}

/// The entries of one bibliography block.
pub open spec fn entries_of_block(block: Seq<char>) -> Seq<BibModel> {
    match bibitems_region(block) {
        Some(reg) => entries_of_pieces(split_spec(reg, bibitem_tok())),
        None => Seq::<BibModel>::empty(),
    }
}

/// The entries of all blocks, in block order.
pub open spec fn entries_of_blocks(blocks: Seq<Seq<char>>) -> Seq<BibModel>
    decreases blocks.len(),
{
    if blocks.len() == 0 {
        Seq::<BibModel>::empty()
    } else {
        entries_of_blocks(blocks.drop_last()) + entries_of_block(blocks.last())
    }
}

/// Every bibliography entry declared in `s`, across all its bibliography
/// blocks, in text order.
pub open spec fn parse_bibliography_spec(s: Seq<char>) -> Seq<BibModel> {
    entries_of_blocks(bib_blocks_from(s, 0))
}

fn entries_of_block_run(block: &[char]) -> (es: Vec<BibEntry>)
    ensures
        es@.map_values(|e: BibEntry| e@) == entries_of_block(block@),
{
    let mut es: Vec<BibEntry> = Vec::new();
    let reg = match bibitems_region_run(block) {
        Some(reg) => reg,
        None => {
            proof {
                assert(es@.map_values(|e: BibEntry| e@) =~= entries_of_block(block@));
            }
            return es;
        },
    };
    let it = bibitem_tok_vec();
    let pieces = split(reg.as_slice(), it.as_slice());
    let ghost gp = split_spec(reg@, bibitem_tok());
    let mut i: usize = 0;
    while i < pieces.len()
        invariant
            i <= pieces@.len(),
            pieces@.map_values(|p: Vec<char>| p@) == gp,
            es@.map_values(|e: BibEntry| e@) == entries_of_pieces(gp.take(i as int)),
        decreases pieces@.len() - i,
    {
        match entry_of_piece_run(pieces[i].as_slice()) {
            Some(e) => {
                es.push(e);
            },
            None => {},
        }
        proof {
            assert(gp.take(i + 1 as int).drop_last() =~= gp.take(i as int));
            assert(gp.take(i + 1 as int).last() == gp[i as int]);
            match entry_of_piece(gp[i as int]) {
                Some(m) => {
                    assert(es@.map_values(|e: BibEntry| e@) =~= entries_of_pieces(
                        gp.take(i as int),
                    ) + seq![m]);
                },
                None => {},
            }
        }
        i = i + 1;
    }
    proof {
        assert(gp.take(gp.len() as int) =~= gp);
    }
    es
}

/// Parses every `\bibitem{key} text` of every bibliography block of `text`:
/// keys are trimmed, entry texts are normalized by the cleaning pass.
pub fn parse_bibliography(text: &str) -> (es: Vec<BibEntry>)
    ensures
        es@.map_values(|e: BibEntry| e@) == parse_bibliography_spec(text@),
{
    let v = chars_vec(text);
    let bt = begin_tok_vec();
    let et = end_tok_vec();
    let blocks = bib_blocks_run(v.as_slice(), 0, bt.as_slice(), et.as_slice());
    let ghost gb = bib_blocks_from(text@, 0);
    let mut es: Vec<BibEntry> = Vec::new();
    let mut i: usize = 0;
    while i < blocks.len()
        invariant
            i <= blocks@.len(),
            blocks@.map_values(|b: Vec<char>| b@) == gb,
            es@.map_values(|e: BibEntry| e@) == entries_of_blocks(gb.take(i as int)),
        decreases blocks@.len() - i,
    {
        let mut bes = entries_of_block_run(blocks[i].as_slice());
        let ghost before = es@;
        es.append(&mut bes);
        proof {
            assert(gb.take(i + 1 as int).drop_last() =~= gb.take(i as int));
            assert(gb.take(i + 1 as int).last() == gb[i as int]);
            assert(es@.map_values(|e: BibEntry| e@) =~= entries_of_blocks(gb.take(i as int))
                + entries_of_block(gb[i as int]));
        }
        i = i + 1;
    }
    proof {
        assert(gb.take(gb.len() as int) =~= gb);
    }
    es
}

/// The include targets among scanned items, in order.
pub open spec fn includes_of(items: Seq<ScanModel>) -> Seq<Seq<char>>
    decreases items.len(),
{
    if items.len() == 0 {
        Seq::<Seq<char>>::empty()
    } else {
        includes_of(items.drop_last()) + (match items.last() {
            ScanModel::Include(t) => seq![t],
            ScanModel::Citation(_) => Seq::<Seq<char>>::empty(),
        })
    }
}

/// The include targets of `text`, in text order.
pub fn scan_includes(text: &str) -> (targets: Vec<String>)
    ensures
        targets@.map_values(|t: String| t@) == includes_of(scan_spec(text@)),
{
    let items = scan_document(text);
    let mut targets: Vec<String> = Vec::new();
    let mut i: usize = 0;
    while i < items.len()
        invariant
            i <= items@.len(),
            items@.map_values(|it: ScanItem| it@) == scan_spec(text@),
            targets@.map_values(|t: String| t@) == includes_of(
                scan_spec(text@).take(i as int),
            ),
        decreases items@.len() - i,
    {
        let gi = Ghost(scan_spec(text@));
        match &items[i] {
            ScanItem::Include(t) => {
                let mut tc = String::new();
                tc.append(t.as_str());
                targets.push(tc);
            },
            ScanItem::Citation(_) => {},
        }
        proof {
            assert(gi@.take(i + 1 as int).drop_last() =~= gi@.take(i as int));
            assert(gi@.take(i + 1 as int).last() == items@[i as int]@);
            match items@[i as int]@ {
                ScanModel::Include(t) => {
                    assert(targets@.map_values(|t: String| t@) =~= includes_of(gi@.take(i as int))
                        + seq![t]);
                },
                ScanModel::Citation(_) => {},
            }
        }
        i = i + 1;
    }
    proof {
        assert(scan_spec(text@).take(scan_spec(text@).len() as int) =~= scan_spec(text@));
    }
    targets
}

} // verus!
