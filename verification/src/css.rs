//! The style-sheet parser: splits the input into selector text and
//! brace-delimited declaration blocks, and each block into
//! `property:value` pairs, yielding a flat rule list.
//!
//! The list is modelled at the spec level by [`parse_css_spec`]; the
//! executable [`parse_css`] is proved to return exactly its result.

use crate::text::{
    append_pairs, attrs_text, chars_to_string, find_char, lemma_find_char, pairs_view,
    split_chars, split_from, str_to_chars, strings_view, subvec, trim, trim_chars, views_of,
};
use vstd::prelude::*;

verus! {

/// Spec-level picture of one rule: the selectors of its group, in
/// source order, and its declarations, in source order.
#[verifier::ext_equal]
pub ghost struct RuleV {
    pub selectors: Seq<Seq<char>>,
    pub declarations: Seq<(Seq<char>, Seq<char>)>,
}

/// One declaration from a raw semicolon-delimited piece: the text
/// before the first `:` and the text after it, both trimmed; a piece
/// with no `:` yields an empty value.
pub open spec fn decl_of(p: Seq<char>) -> (Seq<char>, Seq<char>) {
    let j = find_char(p, ':', 0);
    if j >= p.len() {
        (trim(p), Seq::empty())
    } else {
        (trim(p.subrange(0, j)), trim(p.subrange(j + 1, p.len() as int)))
    }
}

/// The selector list from the comma-split pieces at index `k` on: each
/// piece trimmed, pieces that trim to nothing dropped.
pub open spec fn sel_list_from(pieces: Seq<Seq<char>>, k: int) -> Seq<Seq<char>>
    decreases pieces.len() - k when 0 <= k <= pieces.len()
{
    if k >= pieces.len() {
        Seq::empty()
    } else {
        let t = trim(pieces[k]);
        (if t.len() == 0 {
            Seq::<Seq<char>>::empty()
        } else {
            seq![t]
        }) + sel_list_from(pieces, k + 1)
    }
}

/// The declaration list from the semicolon-split pieces at index `k`
/// on: pieces that trim to nothing are dropped, the rest become
/// `property:value` pairs.
pub open spec fn decls_from(pieces: Seq<Seq<char>>, k: int) -> Seq<(Seq<char>, Seq<char>)>
    decreases pieces.len() - k when 0 <= k <= pieces.len()
{
    if k >= pieces.len() {
        Seq::empty()
    } else {
        let t = trim(pieces[k]);
        (if t.len() == 0 {
            Seq::<(Seq<char>, Seq<char>)>::empty()
        } else {
            seq![decl_of(pieces[k])]
        }) + decls_from(pieces, k + 1)
    }
}

/// The rule made of selector text `sel` and declaration block `block`.
pub open spec fn rule_of(sel: Seq<char>, block: Seq<char>) -> RuleV {
    RuleV {
        selectors: sel_list_from(split_from(sel, ',', 0), 0),
        declarations: decls_from(split_from(block, ';', 0), 0),
    }
}

/// The whole style parse from index `i`: selector text runs to the
/// next `{`, the block to the next `}` (or the end of input, without
/// complaint), and trailing text with no block is discarded.
pub open spec fn css_run(s: Seq<char>, i: int, acc: Seq<RuleV>) -> Seq<RuleV>
    decreases s.len() - i when 0 <= i <= s.len() via css_run_dec
{
    let ob = find_char(s, '{', i);
    if ob >= s.len() {
        acc
    } else {
        let cb = find_char(s, '}', ob + 1);
        let rule = rule_of(
            s.subrange(i, ob),
            s.subrange(
                ob + 1,
                if cb < s.len() {
                    cb
                } else {
                    s.len() as int
                },
            ),
        );
        if cb >= s.len() {
            acc.push(rule)
        } else {
            css_run(s, cb + 1, acc.push(rule))
        }
    }
}

#[via_fn]
proof fn css_run_dec(s: Seq<char>, i: int, acc: Seq<RuleV>) {
    if 0 <= i <= s.len() {
        lemma_find_char(s, '{', i);
        let ob = find_char(s, '{', i);
        if ob < s.len() {
            lemma_find_char(s, '}', ob + 1);
        }
    }
}

/// What `parse_css` returns, as a function of the input characters
/// alone.
pub open spec fn parse_css_spec(s: Seq<char>) -> Seq<RuleV> {
    css_run(s, 0, Seq::empty())
}

/// One style rule: the selectors of its comma-separated group, and its
/// declarations as `(property, value)` pairs, both in source order.
pub struct Rule {
    pub selector: Vec<String>,
    pub declarations: Vec<(String, String)>,
}

impl View for Rule {
    type V = RuleV;

    open spec fn view(&self) -> RuleV {
        RuleV {
            selectors: strings_view(self.selector@),
            declarations: pairs_view(self.declarations@),
        }
    }
}

/// The views of a list of rules.
pub open spec fn rules_view(v: Seq<Rule>) -> Seq<RuleV> {
    v.map_values(|r: Rule| r@)
}

/// A parsed style sheet: a flat, ordered rule list.
pub struct Stylesheet {
    pub rules: Vec<Rule>,
}

impl View for Stylesheet {
    type V = Seq<RuleV>;

    open spec fn view(&self) -> Seq<RuleV> {
        rules_view(self.rules@)
    }
}

/// Builds the rule for one selector text and one declaration block,
/// exactly as [`rule_of`] says.
fn build_rule(sel: &Vec<char>, block: &Vec<char>) -> (r: Rule)
    ensures
        r@ == rule_of(sel@, block@),
{
    let pieces = split_chars(sel, ',');
    let ghost pv = views_of(pieces@);
    let mut selector: Vec<String> = Vec::new();
    let mut k: usize = 0;
    proof {
        assert(strings_view(selector@) =~= Seq::<Seq<char>>::empty());
    }
    while k < pieces.len()
        invariant
            k <= pieces@.len(),
            pv == views_of(pieces@),
            sel_list_from(pv, 0) == strings_view(selector@) + sel_list_from(pv, k as int),
        decreases pieces@.len() - k,
    {
        let ghost sv0 = strings_view(selector@);
        let t = trim_chars(&pieces[k]);
        if t.len() > 0 {
            let ts = chars_to_string(&t);
            selector.push(ts);
            proof {
                assert(strings_view(selector@) =~= sv0.push(trim(pv[k as int])));
                assert(sv0.push(trim(pv[k as int])) =~= sv0 + seq![trim(pv[k as int])]);
                assert((sv0 + seq![trim(pv[k as int])]) + sel_list_from(pv, k + 1) =~= sv0 + (
                seq![trim(pv[k as int])] + sel_list_from(pv, k + 1)));
            }
        } else {
            proof {
                assert(Seq::<Seq<char>>::empty() + sel_list_from(pv, k + 1) =~= sel_list_from(
                    pv,
                    k + 1,
                ));
            }
        }
        k += 1;
    }
    proof {
        assert(strings_view(selector@) + Seq::<Seq<char>>::empty() =~= strings_view(selector@));
    }
    let dpieces = split_chars(block, ';');
    let ghost dv = views_of(dpieces@);
    let mut declarations: Vec<(String, String)> = Vec::new();
    let mut k2: usize = 0;
    proof {
        assert(pairs_view(declarations@) =~= Seq::<(Seq<char>, Seq<char>)>::empty());
    }
    while k2 < dpieces.len()
        invariant
            k2 <= dpieces@.len(),
            dv == views_of(dpieces@),
            decls_from(dv, 0) == pairs_view(declarations@) + decls_from(dv, k2 as int),
        decreases dpieces@.len() - k2,
    {
        let ghost dv0 = pairs_view(declarations@);
        let p = &dpieces[k2];
        let t = trim_chars(p);
        if t.len() > 0 {
            proof {
                lemma_find_char(p@, ':', 0);
            }
            let mut j: usize = 0;
            while j < p.len() && p[j] != ':'
                invariant
                    j <= p@.len(),
                    find_char(p@, ':', 0) == find_char(p@, ':', j as int),
                decreases p@.len() - j,
            {
                j += 1;
            }
            proof {
                assert(find_char(p@, ':', 0) == j as int);
            }
            let pair = if j < p.len() {
                let pre = subvec(p, 0, j);
                let post = subvec(p, j + 1, p.len());
                let prop = trim_chars(&pre);
                let val = trim_chars(&post);
                (chars_to_string(&prop), chars_to_string(&val))
            } else {
                (chars_to_string(&t), String::new())
            };
            declarations.push(pair);
            proof {
                assert(pairs_view(declarations@) =~= dv0.push(decl_of(dv[k2 as int])));
                assert(dv0.push(decl_of(dv[k2 as int])) =~= dv0 + seq![decl_of(dv[k2 as int])]);
                assert((dv0 + seq![decl_of(dv[k2 as int])]) + decls_from(dv, k2 + 1) =~= dv0 + (
                seq![decl_of(dv[k2 as int])] + decls_from(dv, k2 + 1)));
            }
        } else {
            proof {
                assert(Seq::<(Seq<char>, Seq<char>)>::empty() + decls_from(dv, k2 + 1)
                    =~= decls_from(dv, k2 + 1));
            }
        }
        k2 += 1;
    }
    proof {
        assert(pairs_view(declarations@) + Seq::<(Seq<char>, Seq<char>)>::empty() =~= pairs_view(
            declarations@,
        ));
    }
    let r = Rule { selector, declarations };
    proof {
        assert(r@ =~~= rule_of(sel@, block@));
    }
    r
}

/// Parses a style-sheet text into its rule list. The result is exactly
/// [`parse_css_spec`] of the input characters.
#[verifier::loop_isolation(false)]
pub fn parse_css(input: &str) -> (sheet: Stylesheet)
    ensures
        sheet@ == parse_css_spec(input@),
{
    let s = str_to_chars(input);
    let mut rules: Vec<Rule> = Vec::new();
    let mut i: usize = 0;
    let mut go = true;
    proof {
        assert(rules_view(rules@) =~= Seq::<RuleV>::empty());
    }
    while go
        invariant
            i <= s@.len(),
            go ==> parse_css_spec(input@) == css_run(s@, i as int, rules_view(rules@)),
            !go ==> parse_css_spec(input@) == rules_view(rules@),
        decreases (if go { 1int } else { 0int }), s@.len() - i,
    {
        let ghost acc0 = rules_view(rules@);
        let sel_start = i;
        proof {
            lemma_find_char(s@, '{', sel_start as int);
        }
        while i < s.len() && s[i] != '{'
            invariant
                sel_start <= i <= s@.len(),
                find_char(s@, '{', sel_start as int) == find_char(s@, '{', i as int),
            decreases s@.len() - i,
        {
            i += 1;
        }
        proof {
            assert(find_char(s@, '{', sel_start as int) == i as int);
        }
        if i >= s.len() {
            go = false;
        } else {
            let sel = subvec(&s, sel_start, i);
            let block_start = i + 1;
            i += 1;
            proof {
                lemma_find_char(s@, '}', block_start as int);
            }
            while i < s.len() && s[i] != '}'
                invariant
                    block_start <= i <= s@.len(),
                    find_char(s@, '}', block_start as int) == find_char(s@, '}', i as int),
                decreases s@.len() - i,
            {
                i += 1;
            }
            proof {
                assert(find_char(s@, '}', block_start as int) == i as int);
            }
            let block = subvec(&s, block_start, i);
            let rule = build_rule(&sel, &block);
            rules.push(rule);
            proof {
                assert(rules_view(rules@) =~= acc0.push(
                    rule_of(sel@, block@),
                ));
            }
            if i < s.len() {
                i += 1;
            } else {
                go = false;
            }
        }
    }
    let sheet = Stylesheet { rules };
    sheet
}

/// The diagnostic lines of one rule from selector position `k` on: one
/// line per selector of its group, each with the full declaration
/// list.
pub open spec fn rule_text(r: RuleV, k: int) -> Seq<char>
    decreases r.selectors.len() - k when 0 <= k <= r.selectors.len()
{
    if k >= r.selectors.len() {
        Seq::empty()
    } else {
        r.selectors[k] + ":\t ["@ + attrs_text(r.declarations, 0) + "]"@ + "\n"@ + rule_text(
            r,
            k + 1,
        )
    }
}

/// The diagnostic rendering of the rules from index `k` on.
pub open spec fn sheet_text(rules: Seq<RuleV>, k: int) -> Seq<char>
    decreases rules.len() - k when 0 <= k <= rules.len()
{
    if k >= rules.len() {
        Seq::empty()
    } else {
        rule_text(rules[k], 0) + sheet_text(rules, k + 1)
    }
}

impl Stylesheet {
    /// Renders the rule list as diagnostic lines, one per selector.
    #[verifier::loop_isolation(false)]
    pub fn render(&self) -> (out: String)
        ensures
            out@ == sheet_text(self@, 0),
    {
        let ghost sv = self@;
        let mut out = String::new();
        let mut r: usize = 0;
        proof {
            assert(Seq::<char>::empty() + sheet_text(sv, 0) =~= sheet_text(sv, 0));
        }
        while r < self.rules.len()
            invariant
                r <= self.rules@.len(),
                out@ + sheet_text(sv, r as int) == sheet_text(sv, 0),
            decreases self.rules@.len() - r,
        {
            let ghost outr = out@;
            let ghost rv = sv[r as int];
            let rule = &self.rules[r];
            let mut k: usize = 0;
            while k < rule.selector.len()
                invariant
                    k <= rule.selector@.len(),
                    out@ + rule_text(rv, k as int) == outr + rule_text(rv, 0),
                decreases rule.selector@.len() - k,
            {
                let ghost out0 = out@;
                out.append(rule.selector[k].as_str());
                out.append(":\t [");
                append_pairs(&mut out, &rule.declarations);
                out.append("]");
                out.append("\n");
                proof {
                    assert(rv.selectors[k as int] == rule.selector@[k as int]@);
                    assert(rv.declarations == pairs_view(rule.declarations@));
                    assert(out@ + rule_text(rv, k + 1 as int) =~= out0 + rule_text(rv, k as int));
                }
                k += 1;
            }
            proof {
                assert(out@ + Seq::<char>::empty() =~= out@);
                assert(out@ + sheet_text(sv, r + 1 as int) =~= outr + sheet_text(sv, r as int));
            }
            r += 1;
        }
        proof {
            assert(out@ + Seq::<char>::empty() =~= out@);
        }
        out
    }
}

} // verus!
