//! The rule text: whitespace-separated tokens forming blocks
//! `LHS -> RHS | RHS ... ;`, where `->`, `|` and `;` are reserved.
use vstd::prelude::*;
use crate::grammar::{Grammar, GrammarError, RuleBlock, blocks_view, views};
use crate::model::{RuleView, rule_alts, rules_acceptable, rules_mention};
use crate::symbol::{Symbol, SymbolView, label_is_terminal};

verus! {

pub open spec fn arrow() -> Seq<char> {
    seq!['-', '>']
}

pub open spec fn bar() -> Seq<char> {
    seq!['|']
}

pub open spec fn semi() -> Seq<char> {
    seq![';']
}

pub open spec fn is_reserved(t: Seq<char>) -> bool {
    t == arrow() || t == bar() || t == semi()
}

/// The pieces of `s` between occurrences of `sep` (one more piece than there
/// are separators).
pub open spec fn split_on(s: Seq<Seq<char>>, sep: Seq<char>) -> Seq<Seq<Seq<char>>>
    decreases s.len(),
{
    if s.len() == 0 {
        seq![Seq::empty()]
    } else {
        let p = split_on(s.drop_last(), sep);
        if s.last() == sep {
            p.push(Seq::empty())
        } else {
            p.update(p.len() - 1, p.last().push(s.last()))
        }
    }
}

/// A token as a symbol.
pub open spec fn classify(t: Seq<char>) -> SymbolView {
    (t, label_is_terminal(t))
}

/// The tokens of one block, its `;` left out, are well formed: a symbol,
/// `->`, then symbols and `|` separators.
pub open spec fn block_ok(seg: Seq<Seq<char>>) -> bool {
    &&& seg.len() >= 2
    &&& !is_reserved(seg[0])
    &&& seg[1] == arrow()
    &&& forall|k: int| 2 <= k < seg.len() ==> #[trigger] seg[k] != arrow()
}

/// The rule block that a well-formed block's tokens denote.
pub open spec fn block_of(seg: Seq<Seq<char>>) -> RuleView {
    (
        classify(seg[0]),
        split_on(seg.subrange(2, seg.len() as int), bar()).map_values(
            |alt: Seq<Seq<char>>| alt.map_values(|t: Seq<char>| classify(t)),
        ),
    )
}

/// The text is well formed: every block ends with `;`, and is well formed.
pub open spec fn text_ok(toks: Seq<Seq<char>>) -> bool {
    let segs = split_on(toks, semi());
    &&& segs.last().len() == 0
    &&& forall|k: int| 0 <= k < segs.len() - 1 ==> block_ok(#[trigger] segs[k])
}

/// The rule blocks of a well-formed text, in order.
pub open spec fn text_blocks(toks: Seq<Seq<char>>) -> Seq<RuleView> {
    split_on(toks, semi()).drop_last().map_values(|seg: Seq<Seq<char>>| block_of(seg))
}

/// The views of a sequence of tokens.
pub open spec fn token_views(v: Seq<String>) -> Seq<Seq<char>> {
    v.map_values(|t: String| t@)
}

/// The views of a sequence of token sequences.
pub open spec fn piece_views(v: Seq<Vec<String>>) -> Seq<Seq<Seq<char>>> {
    v.map_values(|p: Vec<String>| token_views(p@))
}

/// Splits `tokens[lo..hi]` on `sep`.
fn split_tokens(tokens: &Vec<String>, lo: usize, hi: usize, sep: &String) -> (r: Vec<Vec<String>>)
    requires
        lo <= hi <= tokens.len(),
    ensures
        piece_views(r@) == split_on(token_views(tokens@).subrange(lo as int, hi as int), sep@),
{
    let ghost tv = token_views(tokens@);
    let mut done: Vec<Vec<String>> = Vec::new();
    let mut cur: Vec<String> = Vec::new();
    let mut i = lo;
    assert(tv.subrange(lo as int, lo as int) =~= Seq::<Seq<char>>::empty());
    assert(token_views(cur@) =~= Seq::<Seq<char>>::empty());
    assert(piece_views(done@) =~= Seq::<Seq<Seq<char>>>::empty());
    assert(piece_views(done@).push(token_views(cur@)) =~= seq![Seq::<Seq<char>>::empty()]);
    while i < hi
        invariant
            lo <= i <= hi,
            hi <= tokens.len(),
            tv == token_views(tokens@),
            piece_views(done@).push(token_views(cur@)) == split_on(tv.subrange(lo as int, i as int), sep@),
        decreases hi - i,
    {
        let ghost s = tv.subrange(lo as int, i + 1);
        assert(s.drop_last() =~= tv.subrange(lo as int, i as int));
        assert(s.last() == tokens@[i as int]@);
        if tokens[i] == *sep {
            let piece = cur;
            let ghost pv = piece_views(done@);
            done.push(piece);
            cur = Vec::new();
            assert(s.last() == sep@);
            assert(token_views(cur@) =~= Seq::<Seq<char>>::empty());
            assert(piece_views(done@) =~= pv.push(token_views(piece@)));
            assert(piece_views(done@).push(token_views(cur@)) =~= split_on(s, sep@));
        } else {
            let ghost cv = token_views(cur@);
            cur.push(tokens[i].clone());
            assert(token_views(cur@) =~= cv.push(tokens@[i as int]@));
            assert(piece_views(done@).push(token_views(cur@)) =~= split_on(s.drop_last(), sep@).update(
                split_on(s.drop_last(), sep@).len() - 1,
                cv.push(s.last()),
            ));
        }
        i = i + 1;
    }
    let ghost pv = piece_views(done@);
    done.push(cur);
    assert(piece_views(done@) =~= pv.push(token_views(cur@)));
    done
}

/// The reserved tokens, as strings.
fn reserved_tokens() -> (r: (String, String, String))
    ensures
        r.0@ == arrow(),
        r.1@ == bar(),
        r.2@ == semi(),
{
    proof {
        reveal_strlit("->");
        reveal_strlit("|");
        reveal_strlit(";");
    }
    ("->".to_owned(), "|".to_owned(), ";".to_owned())
}

/// The rule block of one block's tokens, or the token that was required.
fn parse_block(seg: &Vec<String>, index: usize) -> (r: Result<RuleBlock, GrammarError>)
    ensures
        r is Ok <==> block_ok(token_views(seg@)),
        r matches Ok(b) ==> b@ == block_of(token_views(seg@)),
        r matches Err(e) ==> e is Syntax,
{
    let ghost sv = token_views(seg@);
    let (arrow_tok, bar_tok, semi_tok) = reserved_tokens();
    if seg.len() < 2 {
        return Err(GrammarError::Syntax { block: index, expected: arrow_tok });
    }
    assert(sv[0] == seg@[0]@ && sv[1] == seg@[1]@);
    if seg[0] == arrow_tok || seg[0] == bar_tok || seg[0] == semi_tok {
        let (_a, _b, s) = reserved_tokens();
        return Err(GrammarError::Syntax { block: index, expected: s });
    }
    if !(seg[1] == arrow_tok) {
        return Err(GrammarError::Syntax { block: index, expected: arrow_tok });
    }
    let mut k: usize = 2;
    while k < seg.len()
        invariant
            sv == token_views(seg@),
            arrow_tok@ == arrow(),
            2 <= k <= seg.len(),
            forall|k2: int| 2 <= k2 < k ==> #[trigger] sv[k2] != arrow(),
        decreases seg.len() - k,
    {
        assert(sv[k as int] == seg@[k as int]@);
        if seg[k] == arrow_tok {
            return Err(GrammarError::Syntax { block: index, expected: semi_tok });
        }
        k = k + 1;
    }
    let pieces = split_tokens(seg, 2, seg.len(), &bar_tok);
    assert(sv.subrange(2, sv.len() as int) =~= token_views(seg@).subrange(2, seg.len() as int));
    let ghost want = block_of(sv);
    let mut alts: Vec<Vec<Symbol>> = Vec::new();
    let mut j: usize = 0;
    while j < pieces.len()
        invariant
            j <= pieces.len(),
            want == block_of(sv),
            piece_views(pieces@) == split_on(sv.subrange(2, sv.len() as int), bar()),
            alts.len() == j,
            forall|j2: int| 0 <= j2 < j ==> #[trigger] views(alts@[j2]@) == want.1[j2],
        decreases pieces.len() - j,
    {
        let piece = &pieces[j];
        let mut alt: Vec<Symbol> = Vec::new();
        let mut q: usize = 0;
        while q < piece.len()
            invariant
                q <= piece.len(),
                alt.len() == q,
                forall|q2: int| 0 <= q2 < q ==> #[trigger] alt@[q2]@ == classify(piece@[q2]@),
            decreases piece.len() - q,
        {
            alt.push(Symbol::from_label(piece[q].clone()));
            q = q + 1;
        }
        proof {
            assert(piece_views(pieces@)[j as int] == token_views(piece@));
            assert(views(alt@) =~= want.1[j as int]);
        }
        alts.push(alt);
        j = j + 1;
    }
    let lhs = Symbol::from_label(seg[0].clone());
    let b = RuleBlock { lhs, alts };
    assert(b@.1 =~= want.1);
    Ok(b)
}

/// The rule blocks of a token sequence.
pub fn parse_rules(tokens: &Vec<String>) -> (r: Result<Vec<RuleBlock>, GrammarError>)
    ensures
        r is Ok <==> text_ok(token_views(tokens@)),
        r matches Ok(bs) ==> blocks_view(bs@) == text_blocks(token_views(tokens@)),
        r matches Err(e) ==> e is Syntax,
{
    let ghost tv = token_views(tokens@);
    let (_arrow_tok, _bar_tok, semi_tok) = reserved_tokens();
    let segs = split_tokens(tokens, 0, tokens.len(), &semi_tok);
    assert(tv.subrange(0, tv.len() as int) =~= tv);
    let ghost sv = split_on(tv, semi());
    proof {
        lemma_split_nonempty(tv, semi());
    }
    let last = segs.len() - 1;
    assert(piece_views(segs@)[last as int] == token_views(segs@[last as int]@));
    if segs[last].len() > 0 {
        return Err(GrammarError::Syntax { block: last, expected: semi_tok });
    }
    let mut blocks: Vec<RuleBlock> = Vec::new();
    let mut k: usize = 0;
    while k < last
        invariant
            tv == token_views(tokens@),
            sv == split_on(tv, semi()),
            piece_views(segs@) == sv,
            last == segs.len() - 1,
            k <= last,
            blocks.len() == k,
            forall|k2: int| 0 <= k2 < k ==> block_ok(#[trigger] sv[k2]),
            forall|k2: int| 0 <= k2 < k ==> #[trigger] blocks@[k2]@ == block_of(sv[k2]),
        decreases last - k,
    {
        assert(piece_views(segs@)[k as int] == token_views(segs@[k as int]@));
        match parse_block(&segs[k], k) {
            Ok(b) => {
                blocks.push(b);
            },
            Err(e) => {
                assert(!block_ok(sv[k as int]));
                assert(sv.len() == segs.len());
                assert(0 <= k < sv.len() - 1);
                assert(!text_ok(tv));
                return Err(e);
            },
        }
        k = k + 1;
    }
    assert(blocks_view(blocks@) =~= text_blocks(tv));
    Ok(blocks)
}

proof fn lemma_split_nonempty(s: Seq<Seq<char>>, sep: Seq<char>)
    ensures
        split_on(s, sep).len() >= 1,
    decreases s.len(),
{
    if s.len() > 0 {
        lemma_split_nonempty(s.drop_last(), sep);
    }
}


impl Grammar {
    /// Builds a grammar from rule text split into whitespace-separated tokens.
    /// Fails on malformed text, then as `from_rules` does on its blocks.
    pub fn from_tokens(tokens: &Vec<String>) -> (r: Result<Grammar, GrammarError>)
        ensures
            r is Ok <==> text_ok(token_views(tokens@)) && rules_acceptable(text_blocks(token_views(tokens@))),
            r matches Ok(g) ==> {
                let rules = text_blocks(token_views(tokens@));
                &&& g.inv()
                &&& forall|s: SymbolView| g@.has_symbol(s) <==> rules_mention(rules, s)
                &&& forall|x: int| 0 <= x < g@.n() ==> #[trigger] g@.alts_view(x) == rule_alts(rules, g@.syms[x])
            },
            r matches Err(GrammarError::Syntax { .. }) <==> !text_ok(token_views(tokens@)),
            r matches Err(GrammarError::TerminalHead(s)) ==> s@.1 && exists|k: int|
                0 <= k < text_blocks(token_views(tokens@)).len() && (#[trigger] text_blocks(token_views(tokens@))[k]).0 == s@,
            r matches Err(GrammarError::Undefined(s)) ==> !s@.1 && rules_mention(text_blocks(token_views(tokens@)), s@)
                && rule_alts(text_blocks(token_views(tokens@)), s@).len() == 0,
    {
        let blocks = parse_rules(tokens)?;
        Grammar::from_rules(&blocks)
    }
}

} // verus!
