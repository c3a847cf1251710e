//! Rewriting one file's text: each citation's matched text is replaced by its
//! cleaned serialized form, and every bibliography environment by the single
//! shared minimal bibliography block.
use crate::extract::{begin_tok, bib_blocks_from, end_tok, kind_name, BibEntry, BibModel, Cite,
    CiteKind, CiteModel};
use crate::text::{chars_vec, join, join_spec, push_all, replace_all, replace_all_spec, string_of};
use vstd::prelude::*;

verus! {

/// A citation serialized back to LaTeX: the command for its kind around its
/// comma-joined key list.
pub open spec fn cite_tex_spec(c: CiteModel) -> Seq<char> {
    seq!['\\'] + kind_name(c.kind) + seq!['{'] + join_spec(c.keys, seq![',']) + seq!['}']
}

/// A bibliography entry serialized as a `\bibitem` line.
pub open spec fn bib_item_spec(e: BibModel) -> Seq<char> {
    seq!['\\', 'b', 'i', 'b', 'i', 't', 'e', 'm', '{'] + e.key + seq!['}', ' '] + e.text
}

/// The decimal digits of `n`.
pub open spec fn dec_str(n: nat) -> Seq<char>
    decreases n,
{
    if n < 10 {
        seq![(('0' as int) + n) as char]
    } else {
        dec_str(n / 10).push((('0' as int) + (n % 10)) as char)
    }
}

/// The single bibliography block that replaces every one in the tree: the
/// environment around the size placeholder and the entries, one `\bibitem`
/// per entry, blank lines between.
pub open spec fn bib_block_spec(bibm: Seq<BibModel>, size: nat) -> Seq<char> {
    begin_tok() + seq!['{'] + dec_str(size) + seq!['}', '\n'] + join_spec(
        bibm.map_values(|e: BibModel| bib_item_spec(e)),
        seq!['\n', '\n'],
    ) + seq!['\n'] + end_tok()
}

/// Each citation's matched text replaced, citation by citation, by its
/// serialized cleaned form. A citation with empty matched text changes
/// nothing.
pub open spec fn apply_cites(t: Seq<char>, cs: Seq<CiteModel>) -> Seq<char>
    decreases cs.len(),
{
    if cs.len() == 0 {
        t
    } else {
        let t2 = if cs[0].raw.len() > 0 {
            replace_all_spec(t, cs[0].raw, cite_tex_spec(cs[0]))
        } else {
            t
        };
        apply_cites(t2, cs.skip(1))
    }
}

/// Each found block replaced, block by block, by the shared bibliography
/// block.
pub open spec fn apply_blocks(t: Seq<char>, blocks: Seq<Seq<char>>, bibstr: Seq<char>) -> Seq<char>
    decreases blocks.len(),
{
    if blocks.len() == 0 {
        t
    } else {
        let t2 = if blocks[0].len() > 0 {
            replace_all_spec(t, blocks[0], bibstr)
        } else {
            t
        };
        apply_blocks(t2, blocks.skip(1), bibstr)
    }
}

/// One file's rewritten text: citations replaced first, then every
/// bibliography environment found in the substituted text replaced by the
/// shared minimal-bibliography block.
pub open spec fn rewrite_text_spec(t: Seq<char>, cs: Seq<CiteModel>, bibm: Seq<BibModel>) -> Seq<
    char,
> {
    let ap = apply_cites(t, cs);
    apply_blocks(
        ap,
        bib_blocks_from(ap, 0),
        bib_block_spec(bibm, crate::bib_size_spec(bibm.len())),
    )
}

fn kind_chars(k: CiteKind) -> (v: Vec<char>)
    ensures
        v@ == kind_name(k),
{
    match k {
        CiteKind::Cite => {
            let v: Vec<char> = vec!['c', 'i', 't', 'e'];
            proof {
                assert(v@ =~= kind_name(CiteKind::Cite));
            }
            v
        },
        CiteKind::Citet => {
            let v: Vec<char> = vec!['c', 'i', 't', 'e', 't'];
            proof {
                assert(v@ =~= kind_name(CiteKind::Citet));
            }
            v
        },
        CiteKind::Citep => {
            let v: Vec<char> = vec!['c', 'i', 't', 'e', 'p'];
            proof {
                assert(v@ =~= kind_name(CiteKind::Citep));
            }
            v
        },
    }
}

impl Cite {
    /// This citation serialized back to LaTeX from its key list.
    pub fn to_tex(&self) -> (r: String)
        ensures
            r@ == cite_tex_spec(self@),
    {
        let mut parts: Vec<Vec<char>> = Vec::new();
        let mut i: usize = 0;
        while i < self.keys.len()
            invariant
                i <= self.keys@.len(),
                parts@.map_values(|p: Vec<char>| p@) == self@.keys.take(i as int),
            decreases self.keys@.len() - i,
        {
            let kc = chars_vec(self.keys[i].as_str());
            proof {
                assert(kc@ == self@.keys[i as int]);
            }
            parts.push(kc);
            proof {
                assert(self@.keys.take(i + 1) =~= self@.keys.take(i as int).push(
                    self@.keys[i as int],
                ));
                assert(parts@.map_values(|p: Vec<char>| p@) =~= self@.keys.take(i as int).push(
                    self@.keys[i as int],
                ));
            }
            i = i + 1;
        }
        proof {
            assert(self@.keys.take(self@.keys.len() as int) =~= self@.keys);
        }
        let comma: Vec<char> = vec![','];
        proof {
            assert(comma@ =~= seq![',']);
        }
        let joined = join(parts.as_slice(), comma.as_slice());
        let kn = kind_chars(self.kind);
        let mut out: Vec<char> = Vec::new();
        out.push('\\');
        push_all(&mut out, kn.as_slice());
        out.push('{');
        push_all(&mut out, joined.as_slice());
        out.push('}');
        proof {
            assert(out@ =~= cite_tex_spec(self@));
        }
        string_of(out.as_slice())
    }
}

impl BibEntry {
    /// This entry serialized as its `\bibitem` line.
    pub fn to_tex(&self) -> (r: String)
        ensures
            r@ == bib_item_spec(self@),
    {
        let head: Vec<char> = vec!['\\', 'b', 'i', 'b', 'i', 't', 'e', 'm', '{'];
        let mut out: Vec<char> = Vec::new();
        push_all(&mut out, head.as_slice());
        let kc = chars_vec(self.key.as_str());
        push_all(&mut out, kc.as_slice());
        out.push('}');
        out.push(' ');
        let tc = chars_vec(self.text.as_str());
        push_all(&mut out, tc.as_slice());
        proof {
            assert(head@ =~= seq!['\\', 'b', 'i', 'b', 'i', 't', 'e', 'm', '{']);
            assert(out@ =~= bib_item_spec(self@));
        }
        string_of(out.as_slice())
    }
}

pub(crate) fn dec_chars(n: usize) -> (v: Vec<char>)
    ensures
        v@ == dec_str(n as nat),
    decreases n,
{
    if n < 10 {
        let d = ((n as u8) + 48) as char;
        let v: Vec<char> = vec![d];
        proof {
            assert(v@ =~= dec_str(n as nat));
        }
        v
    } else {
        let mut v = dec_chars(n / 10);
        let d = (((n % 10) as u8) + 48) as char;
        v.push(d);
        v
    }
}

fn bib_block_chars(bib: &Vec<BibEntry>) -> (v: Vec<char>)
    requires
        bib@.len() <= usize::MAX / 10,
    ensures
        v@ == bib_block_spec(
            bib@.map_values(|e: BibEntry| e@),
            crate::bib_size_spec(bib@.len() as nat),
        ),
{
    let ghost bibm = bib@.map_values(|e: BibEntry| e@);
    let size = crate::thebibliography_size(bib.len());
    let mut items: Vec<Vec<char>> = Vec::new();
    let mut i: usize = 0;
    while i < bib.len()
        invariant
            i <= bib@.len(),
            bibm == bib@.map_values(|e: BibEntry| e@),
            items@.map_values(|p: Vec<char>| p@) == bibm.take(i as int).map_values(
                |e: BibModel| bib_item_spec(e),
            ),
        decreases bib@.len() - i,
    {
        let line = bib[i].to_tex();
        let lc = chars_vec(line.as_str());
        proof {
            assert(lc@ == bib_item_spec(bibm[i as int]));
        }
        items.push(lc);
        proof {
            assert(bibm.take(i + 1).map_values(|e: BibModel| bib_item_spec(e)) =~= bibm.take(
                i as int,
            ).map_values(|e: BibModel| bib_item_spec(e)).push(bib_item_spec(bibm[i as int])));
            assert(items@.map_values(|p: Vec<char>| p@) =~= bibm.take(i as int).map_values(
                |e: BibModel| bib_item_spec(e),
            ).push(bib_item_spec(bibm[i as int])));
        }
        i = i + 1;
    }
    proof {
        assert(bibm.take(bibm.len() as int) =~= bibm);
    }
    let sep: Vec<char> = vec!['\n', '\n'];
    proof {
        assert(sep@ =~= seq!['\n', '\n']);
    }
    let joined = join(items.as_slice(), sep.as_slice());
    let bt = crate::extract::begin_tok_vec();
    let et = crate::extract::end_tok_vec();
    let digits = dec_chars(size);
    let mut out: Vec<char> = Vec::new();
    push_all(&mut out, bt.as_slice());
    out.push('{');
    push_all(&mut out, digits.as_slice());
    out.push('}');
    out.push('\n');
    push_all(&mut out, joined.as_slice());
    out.push('\n');
    push_all(&mut out, et.as_slice());
    proof {
        assert(out@ =~= bib_block_spec(bibm, crate::bib_size_spec(bib@.len() as nat)));
    }
    out
}

/// Rewrites one file's (comment-stripped) text: replaces each citation's
/// matched text with its cleaned serialized form, then replaces every
/// bibliography environment with the shared minimal-bibliography block.
pub fn rewrite_text(text: &str, cites: &Vec<Cite>, bib: &Vec<BibEntry>) -> (r: String)
    requires
        bib@.len() <= usize::MAX / 10,
    ensures
        r@ == rewrite_text_spec(
            text@,
            cites@.map_values(|c: Cite| c@),
            bib@.map_values(|e: BibEntry| e@),
        ),
{
    let ghost cm = cites@.map_values(|c: Cite| c@);
    let ghost bibm = bib@.map_values(|e: BibEntry| e@);
    let mut cur = chars_vec(text);
    proof {
        assert(cm.skip(0) =~= cm);
    }
    let mut i: usize = 0;
    while i < cites.len()
        invariant
            i <= cites@.len(),
            cm == cites@.map_values(|c: Cite| c@),
            apply_cites(cur@, cm.skip(i as int)) == apply_cites(text@, cm),
        decreases cites@.len() - i,
    {
        let ghost before = cur@;
        let raw = chars_vec(cites[i].raw.as_str());
        if raw.len() > 0 {
            let tex = cites[i].to_tex();
            let texc = chars_vec(tex.as_str());
            cur = replace_all(cur.as_slice(), raw.as_slice(), texc.as_slice());
        }
        proof {
            assert(cm.skip(i as int)[0] == cm[i as int]);
            assert(cm.skip(i as int).skip(1) =~= cm.skip(i + 1));
        }
        i = i + 1;
    }
    proof {
        assert(cm.skip(cm.len() as int) =~= Seq::<CiteModel>::empty());
    }
    let bibstr = bib_block_chars(bib);
    let blocks = crate::extract::bib_blocks_chars(cur.as_slice());
    let ghost gb = bib_blocks_from(cur@, 0);
    let mut j: usize = 0;
    let ghost ap = cur@;
    proof {
        assert(gb.skip(0) =~= gb);
    }
    while j < blocks.len()
        invariant
            j <= blocks@.len(),
            blocks@.map_values(|b: Vec<char>| b@) == gb,
            bibstr@ == bib_block_spec(bibm, crate::bib_size_spec(bibm.len())),
            apply_blocks(cur@, gb.skip(j as int), bibstr@) == apply_blocks(ap, gb, bibstr@),
        decreases blocks@.len() - j,
    {
        if blocks[j].len() > 0 {
            cur = replace_all(cur.as_slice(), blocks[j].as_slice(), bibstr.as_slice());
        }
        proof {
            assert(gb.skip(j as int)[0] == gb[j as int]);
            assert(gb.skip(j as int).skip(1) =~= gb.skip(j + 1));
        }
        j = j + 1;
    }
    proof {
        assert(gb.skip(gb.len() as int) =~= Seq::<Seq<char>>::empty());
    }
    string_of(cur.as_slice())
}

} // verus!
