//! Extracting a source file: its language's grammar, made once and kept in a
//! pool, finds the captures of the syntax query; the captures become the
//! file's extracts.
use vstd::prelude::*;
use vstd::map::*;

use crate::extractor::{
    extract_from_captures, extracts_of, lemma_extracts_placed, lines_from_one, ranges_within, CaptureView,
    FileExtracts, FileExtractsView,
};
use crate::grammar::{grammar_captures, grammar_loads, load, query_compiles, syntax_captures, Grammar};
use crate::lang::Lang;
use crate::order::views;

verus! {

/// Why a file could not be extracted.
#[derive(Debug, Clone, Copy, PartialEq, Eq, Structural)]
pub enum ExtractError {
    /// The grammar could not be set on the parser.
    Language(Lang),
    /// The syntax query does not compile.
    Query(Lang),
    /// The source could not be parsed. Tree-sitter reports this only for a
    /// parser without a grammar or with a timeout or cancellation flag, which
    /// a pool's grammars never have.
    Parse(Lang),
    /// A capture starts on a row whose number does not fit.
    TooLong,
}

/// Some capture starts on the last row a `u32` can number, so its 1-based
/// line does not fit.
pub open spec fn has_overlong_row(cs: Seq<CaptureView>) -> bool {
    exists|i: int| 0 <= i < cs.len() && #[trigger] cs[i].row == u32::MAX
}

/// The query text used for `lang`: the one the pool holds for it, or else
/// `query_source`, with which the grammar is made.
pub open spec fn query_used(held: Map<Lang, Seq<char>>, lang: Lang, query_source: Seq<char>) -> Seq<char> {
    if held.contains_key(lang) {
        held[lang]
    } else {
        query_source
    }
}

/// Whether a grammar for `lang` is held, or can be made from `query_source`.
pub open spec fn grammar_ready(held: Map<Lang, Seq<char>>, lang: Lang, query_source: Seq<char>) -> bool {
    held.contains_key(lang) || (grammar_loads(lang) && query_compiles(lang, query_source))
}

/// What extracting `source` gives, when the pool holds the queries `held`:
/// the step that fails, or the extracts of the captures of the query used.
pub open spec fn extract_outcome(
    held: Map<Lang, Seq<char>>,
    lang: Lang,
    query_source: Seq<char>,
    source: Seq<u8>,
) -> Result<FileExtractsView, ExtractError> {
    if !held.contains_key(lang) && !grammar_loads(lang) {
        Err(ExtractError::Language(lang))
    } else if !held.contains_key(lang) && !query_compiles(lang, query_source) {
        Err(ExtractError::Query(lang))
    } else {
        let cs = syntax_captures(lang, query_used(held, lang, query_source), source);
        if has_overlong_row(cs) {
            Err(ExtractError::TooLong)
        } else {
            Ok(extracts_of(cs))
        }
    }
}

/// The queries the pool holds after extracting: a grammar made for `lang` is
/// kept.
pub open spec fn pool_after(held: Map<Lang, Seq<char>>, lang: Lang, query_source: Seq<char>) -> Map<
    Lang,
    Seq<char>,
> {
    if grammar_ready(held, lang, query_source) {
        held.insert(lang, query_used(held, lang, query_source))
    } else {
        held
    }
}

pub open spec fn result_view(r: Result<FileExtracts, ExtractError>) -> Result<FileExtractsView, ExtractError> {
    match r {
        Ok(ex) => Ok(ex@),
        Err(e) => Err(e),
    }
}

spec fn has_lang(s: Seq<Grammar>, l: Lang) -> bool {
    exists|i: int| 0 <= i < s.len() && #[trigger] s[i].lang_of() == l
}

spec fn distinct_langs(s: Seq<Grammar>) -> bool {
    forall|i: int, j: int| 0 <= i < j < s.len() ==> #[trigger] s[i].lang_of() != #[trigger] s[j].lang_of()
}

spec fn queries_of(s: Seq<Grammar>) -> Map<Lang, Seq<char>> {
    Map::new(
        |l: Lang| has_lang(s, l),
        |l: Lang| s[choose|i: int| 0 <= i < s.len() && #[trigger] s[i].lang_of() == l].query_of(),
    )
}

proof fn lemma_query_at(s: Seq<Grammar>, i: int)
    requires
        distinct_langs(s),
        0 <= i < s.len(),
    ensures
        queries_of(s).contains_key(s[i].lang_of()),
        queries_of(s)[s[i].lang_of()] == s[i].query_of(),
{
    let l = s[i].lang_of();
    assert(has_lang(s, l));
    let j = choose|j: int| 0 <= j < s.len() && #[trigger] s[j].lang_of() == l;
    if j < i {
        assert(s[j].lang_of() != s[i].lang_of());
    } else if j > i {
        assert(s[i].lang_of() != s[j].lang_of());
    }
}

/// Where the `i`-th kept grammar stood before the `k`-th was taken out.
spec fn origin(found: Option<usize>, i: int) -> int {
    match found {
        Some(k) => if i < k {
            i
        } else {
            i + 1
        },
        None => i,
    }
}

/// Taking out the grammar for `lang`, if one is held, and pushing one for
/// `lang` back keeps the languages distinct and holds `q` for `lang`.
proof fn lemma_pool_after(
    olds: Seq<Grammar>,
    found: Option<usize>,
    kept: Seq<Grammar>,
    x: Grammar,
    lang: Lang,
    q: Seq<char>,
)
    requires
        distinct_langs(olds),
        x.lang_of() == lang,
        x.query_of() == q,
        match found {
            Some(k) => k < olds.len() && kept == olds.remove(k as int) && olds[k as int].lang_of() == lang,
            None => kept == olds && !has_lang(olds, lang),
        },
    ensures
        distinct_langs(kept.push(x)),
        queries_of(kept.push(x)) == queries_of(olds).insert(lang, q),
{
    let now = kept.push(x);
    assert forall|i: int| 0 <= i < kept.len() implies 0 <= origin(found, i) < olds.len() && #[trigger] kept[i]
        == olds[origin(found, i)] && olds[origin(found, i)].lang_of() != lang by {
        match found {
            Some(k) => {
                if origin(found, i) == k {
                    assert(false);
                }
                let o = origin(found, i);
                if o < k {
                    assert(olds[o].lang_of() != olds[k as int].lang_of());
                } else {
                    assert(olds[k as int].lang_of() != olds[o].lang_of());
                }
            },
            None => {
                if olds[i].lang_of() == lang {
                    assert(has_lang(olds, lang));
                }
            },
        }
    }
    assert forall|a: int, b: int| 0 <= a < b < now.len() implies #[trigger] now[a].lang_of()
        != #[trigger] now[b].lang_of() by {
        assert(now[a] == kept[a]);
        if b < kept.len() {
            assert(now[b] == kept[b]);
            assert(olds[origin(found, a)].lang_of() != olds[origin(found, b)].lang_of());
        }
    }
    let m1 = queries_of(now);
    let m2 = queries_of(olds).insert(lang, q);
    assert(now[now.len() - 1] == x);
    lemma_query_at(now, now.len() - 1);
    assert forall|l: Lang| #[trigger] m1.contains_key(l) <==> m2.contains_key(l) by {
        if m1.contains_key(l) && l != lang {
            let i = choose|i: int| 0 <= i < now.len() && #[trigger] now[i].lang_of() == l;
            assert(i < kept.len());
            assert(now[i] == kept[i]);
            assert(has_lang(olds, l));
        }
        if m2.contains_key(l) && l != lang {
            let j = choose|j: int| 0 <= j < olds.len() && #[trigger] olds[j].lang_of() == l;
            let m = match found {
                Some(k) => if j > k {
                    j - 1
                } else {
                    j
                },
                None => j,
            };
            if let Some(k) = found {
                assert(j != k);
            }
            assert(kept[m] == olds[origin(found, m)]);
            assert(now[m] == kept[m]);
            assert(has_lang(now, l));
        }
    }
    assert forall|l: Lang| #[trigger] m1.contains_key(l) implies m1[l] == m2[l] by {
        if l != lang {
            let j = choose|j: int| 0 <= j < olds.len() && #[trigger] olds[j].lang_of() == l;
            let m = match found {
                Some(k) => if j > k {
                    j - 1
                } else {
                    j
                },
                None => j,
            };
            if let Some(k) = found {
                assert(j != k);
            }
            assert(kept[m] == olds[origin(found, m)]);
            assert(now[m] == kept[m]);
            lemma_query_at(olds, j);
            lemma_query_at(now, m);
        }
    }
    assert_maps_equal!(m1, m2);
}

/// One grammar per language, made when the language is first met.
pub struct ExtractorPool {
    extractors: Vec<Grammar>,
}

impl ExtractorPool {
    /// No two grammars of the pool are for the same language.
    pub closed spec fn wf(&self) -> bool {
        distinct_langs(self.extractors@)
    }

    /// The languages whose grammar is ready, each with the text of its
    /// syntax query.
    pub closed spec fn queries(&self) -> Map<Lang, Seq<char>> {
        queries_of(self.extractors@)
    }

    /// A pool with no language ready yet.
    pub fn new() -> (r: ExtractorPool)
        ensures
            r.wf(),
            r.queries() == Map::<Lang, Seq<char>>::empty(),
    {
        let r = ExtractorPool { extractors: Vec::new() };
        assert(r.queries() =~= Map::<Lang, Seq<char>>::empty());
        r
    }

    /// The definitions, calls, renders, imports and routes of a source file,
    /// from the captures of its language's syntax query. The grammar is made
    /// with `query_source` when the language is first met, and kept; later
    /// files of the language use the query it was made with. The errors name
    /// the step that failed.
    pub fn extract(&mut self, source: &[u8], lang: Lang, query_source: &str) -> (r: Result<FileExtracts, ExtractError>)
        requires
            old(self).wf(),
        ensures
            final(self).wf(),
            result_view(r) == extract_outcome(old(self).queries(), lang, query_source@, source@),
            final(self).queries() == pool_after(old(self).queries(), lang, query_source@),
            r matches Ok(ex) ==> lines_from_one(ex@),
            r matches Ok(ex) ==> (source.len() <= u32::MAX ==> ranges_within(ex@, source.len() as int)),
    {
        let ghost olds = self.extractors@;
        let ghost held = self.queries();
        let mut found: Option<usize> = None;
        let mut i: usize = 0;
        while i < self.extractors.len()
            invariant
                i <= self.extractors.len(),
                self.extractors@ == olds,
                found matches Some(k) ==> k < olds.len() && olds[k as int].lang_of() == lang,
                found is None ==> forall|j: int| 0 <= j < i ==> olds[j].lang_of() != lang,
            ensures
                self.extractors@ == olds,
                found matches Some(k) ==> k < olds.len() && olds[k as int].lang_of() == lang,
                found is None ==> forall|j: int| 0 <= j < olds.len() ==> olds[j].lang_of() != lang,
            decreases self.extractors.len() - i,
        {
            if self.extractors[i].lang() == lang {
                found = Some(i);
                break;
            }
            i = i + 1;
        }
        proof {
            if let Some(k) = found {
                lemma_query_at(olds, k as int);
            } else {
                if has_lang(olds, lang) {
                    let j = choose|j: int| 0 <= j < olds.len() && #[trigger] olds[j].lang_of() == lang;
                    assert(olds[j].lang_of() != lang);
                }
            }
        }
        let mut grammar = match found {
            Some(k) => self.extractors.remove(k),
            None => match load(lang, query_source) {
                Ok(g) => g,
                Err(e) => return Err(e),
            },
        };
        let ghost kept = self.extractors@;
        let ghost q = query_used(held, lang, query_source@);
        assert(grammar.lang_of() == lang && grammar.query_of() == q);
        let captures = grammar_captures(&mut grammar, source);
        self.extractors.push(grammar);
        proof {
            lemma_pool_after(olds, found, kept, grammar, lang, q);
        }
        let captures = match captures {
            Some(cs) => cs,
            None => return Err(ExtractError::Parse(lang)),
        };
        let ghost cs = syntax_captures(lang, q, source@);
        assert(views(captures@) == cs);
        let mut k: usize = 0;
        while k < captures.len()
            invariant
                k <= captures.len(),
                views(captures@) == cs,
                self.wf(),
                self.queries() == pool_after(old(self).queries(), lang, query_source@),
                grammar_ready(old(self).queries(), lang, query_source@),
                cs == syntax_captures(lang, query_used(old(self).queries(), lang, query_source@), source@),
                source.len() <= u32::MAX ==> forall|j: int|
                    0 <= j < captures.len() ==> #[trigger] captures@[j].start_byte <= captures@[j].end_byte
                        <= source.len(),
                forall|j: int| 0 <= j < k ==> (#[trigger] captures@[j]).row < u32::MAX,
            decreases captures.len() - k,
        {
            if captures[k].row == u32::MAX {
                assert(cs[k as int].row == u32::MAX);
                return Err(ExtractError::TooLong);
            }
            k = k + 1;
        }
        assert(!has_overlong_row(cs)) by {
            if has_overlong_row(cs) {
                let j = choose|j: int| 0 <= j < cs.len() && #[trigger] cs[j].row == u32::MAX;
                assert(captures@[j].row < u32::MAX);
            }
        }
        proof {
            let ranged = source.len() <= u32::MAX;
            assert forall|j: int| 0 <= j < cs.len() implies #[trigger] cs[j].row < u32::MAX by {
                assert(cs[j] == captures@[j]@);
            }
            assert forall|j: int| ranged && 0 <= j < cs.len() implies #[trigger] cs[j].start_byte
                <= cs[j].end_byte <= source.len() by {
                assert(cs[j] == captures@[j]@);
            }
            lemma_extracts_placed(cs, source.len() as int, ranged);
        }
        let ex = extract_from_captures(&captures);
        Ok(ex)
    }
}

} // verus!
