//! Parsing alias lines and building the alias map, followed by resolution.

use vstd::prelude::*;
use crate::addr::{spec_normalize, AliasEmailAddress};
use crate::map::{AliasFile, AliasMap};
use crate::resolve::{dests_in_map, resolve, resolved, rounds, SpecAliasMap};
use crate::text::{is_ws_char, str_chars, strip_commas, subvec, trim_spec};
use crate::SieveError;

verus! {

/// Index of the first occurrence of `c`, or the length when `c` is absent.
pub open spec fn index_of_char(s: Seq<char>, c: char) -> int
    decreases s.len(),
{
    if s.len() == 0 {
        0
    } else if s[0] == c {
        0
    } else {
        1 + index_of_char(s.drop_first(), c)
    }
}

/// Index of the first whitespace character, or the length when there is none.
pub open spec fn index_of_ws(s: Seq<char>) -> int
    decreases s.len(),
{
    if s.len() == 0 {
        0
    } else if is_ws_char(s[0]) {
        0
    } else {
        1 + index_of_ws(s.drop_first())
    }
}

pub proof fn lemma_index_of_char(s: Seq<char>, c: char, i: int)
    requires
        0 <= i <= s.len(),
        forall|j: int| 0 <= j < i ==> s[j] != c,
        i < s.len() ==> s[i] == c,
    ensures
        index_of_char(s, c) == i,
    decreases i,
{
    if i > 0 {
        assert(s[0] != c);
        assert(forall|j: int| 0 <= j < i - 1 ==> s.drop_first()[j] == s[j + 1]);
        assert(i - 1 < s.drop_first().len() ==> s.drop_first()[i - 1] == s[i]);
        lemma_index_of_char(s.drop_first(), c, i - 1);
    }
}

pub proof fn lemma_index_of_ws(s: Seq<char>, i: int)
    requires
        0 <= i <= s.len(),
        forall|j: int| 0 <= j < i ==> !is_ws_char(s[j]),
        i < s.len() ==> is_ws_char(s[i]),
    ensures
        index_of_ws(s) == i,
    decreases i,
{
    if i > 0 {
        assert(!is_ws_char(s[0]));
        assert(forall|j: int| 0 <= j < i - 1 ==> s.drop_first()[j] == s[j + 1]);
        assert(i - 1 < s.drop_first().len() ==> s.drop_first()[i - 1] == s[i]);
        lemma_index_of_ws(s.drop_first(), i - 1);
    }
}

/// The line up to the first `#`: comments run to the end of the line.
pub open spec fn strip_comment(line: Seq<char>) -> Seq<char> {
    line.take(index_of_char(line, '#'))
}

/// The destination token: what stands before the first whitespace run; empty
/// when the content starts with whitespace or holds no whitespace at all.
pub open spec fn dest_token(content: Seq<char>) -> Seq<char> {
    if index_of_ws(content) == content.len() {
        Seq::empty()
    } else {
        content.take(index_of_ws(content))
    }
}

/// Split on single spaces, as `str::split(' ')` does.
pub open spec fn split_spaces(s: Seq<char>) -> Seq<Seq<char>>
    decreases s.len(),
{
    let i = index_of_char(s, ' ');
    if 0 <= i && i < s.len() {
        seq![s.take(i)] + split_spaces(s.skip(i + 1))
    } else {
        seq![s]
    }
}

/// Normalize the candidate forward tokens in order, dropping those that clean
/// to nothing, failing on the first bad one.
pub open spec fn norm_forwards(
    toks: Seq<Seq<char>>,
    domain: Seq<char>,
    acc: Seq<Seq<char>>,
) -> Result<Seq<Seq<char>>, SieveError>
    decreases toks.len(),
{
    if toks.len() == 0 {
        Ok(acc)
    } else {
        let cleaned = strip_commas(trim_spec(toks[0]));
        if cleaned.len() == 0 {
            norm_forwards(toks.drop_first(), domain, acc)
        } else {
            match spec_normalize(toks[0], domain) {
                Err(e) => Err(e),
                Ok(a) => norm_forwards(toks.drop_first(), domain, acc.push(a)),
            }
        }
    }
}

/// What one alias line contributes: nothing for blank, comment-only or
/// forward-less lines; otherwise its destination overwrites the map and is
/// appended to the destination list. Forward tokens are validated first.
pub open spec fn process_line(
    m: SpecAliasMap,
    ds: Seq<Seq<char>>,
    line: Seq<char>,
    domain: Seq<char>,
) -> Result<(SpecAliasMap, Seq<Seq<char>>), SieveError> {
    let content = strip_comment(line);
    let dtok = dest_token(content);
    if dtok.len() == 0 {
        Ok((m, ds))
    } else {
        let rest = content.skip(index_of_ws(content));
        match norm_forwards(split_spaces(rest), domain, Seq::empty()) {
            Err(e) => Err(e),
            Ok(fwds) => if fwds.len() == 0 {
                Ok((m, ds))
            } else {
                match spec_normalize(dtok, domain) {
                    Err(e) => Err(e),
                    Ok(d) => Ok((m.insert(d, fwds), ds.push(d))),
                }
            },
        }
    }
}

/// Fold `process_line` over the lines of one source.
pub open spec fn build_file(
    lines: Seq<Seq<char>>,
    domain: Seq<char>,
    m: SpecAliasMap,
    ds: Seq<Seq<char>>,
) -> Result<(SpecAliasMap, Seq<Seq<char>>), SieveError>
    decreases lines.len(),
{
    if lines.len() == 0 {
        Ok((m, ds))
    } else {
        match process_line(m, ds, lines[0], domain) {
            Err(e) => Err(e),
            Ok(p) => build_file(lines.drop_first(), domain, p.0, p.1),
        }
    }
}

/// Fold `build_file` over all sources.
pub open spec fn build_sources(
    files: Seq<(Seq<Seq<char>>, Seq<char>)>,
    m: SpecAliasMap,
    ds: Seq<Seq<char>>,
) -> Result<(SpecAliasMap, Seq<Seq<char>>), SieveError>
    decreases files.len(),
{
    if files.len() == 0 {
        Ok((m, ds))
    } else {
        match build_file(files[0].0, files[0].1, m, ds) {
            Err(e) => Err(e),
            Ok(p) => build_sources(files.drop_first(), p.0, p.1),
        }
    }
}

/// The alias map and destination list the sources denote, before resolution.
pub open spec fn built_entries(files: Seq<(Seq<Seq<char>>, Seq<char>)>) -> Result<
    (SpecAliasMap, Seq<Seq<char>>),
    SieveError,
> {
    build_sources(files, Map::empty(), Seq::empty())
}

/// Law: a line that is empty, whitespace-only, or empty after comment
/// stripping contributes no entry and no destination, and is no error.
pub proof fn lemma_blank_line_skipped(
    m: SpecAliasMap,
    ds: Seq<Seq<char>>,
    line: Seq<char>,
    domain: Seq<char>,
)
    requires
        forall|j: int| 0 <= j < strip_comment(line).len() ==> is_ws_char(strip_comment(line)[j]),
    ensures
        process_line(m, ds, line, domain) == Ok::<_, SieveError>((m, ds)),
{
    let content = strip_comment(line);
    if content.len() == 0 {
        assert(dest_token(content).len() == 0);
    } else {
        assert(is_ws_char(content[0]));
        lemma_index_of_ws(content, 0);
        assert(dest_token(content).len() == 0);
    }
}

/// First index of `c` in the vector, or its length.
fn find_char_index(v: &Vec<char>, c: char) -> (i: usize)
    ensures
        i == index_of_char(v@, c),
        0 <= index_of_char(v@, c) <= v@.len(),
{
    let n = v.len();
    let mut i: usize = 0;
    while i < n
        invariant
            n == v@.len(),
            i <= n,
            forall|j: int| 0 <= j < i ==> v@[j] != c,
        decreases n - i,
    {
        if v[i] == c {
            proof {
                lemma_index_of_char(v@, c, i as int);
            }
            return i;
        }
        i = i + 1;
    }
    proof {
        lemma_index_of_char(v@, c, n as int);
    }
    n
}

/// First index of whitespace in the vector, or its length.
fn find_ws_index(v: &Vec<char>) -> (i: usize)
    ensures
        i == index_of_ws(v@),
        0 <= index_of_ws(v@) <= v@.len(),
{
    let n = v.len();
    let mut i: usize = 0;
    while i < n
        invariant
            n == v@.len(),
            i <= n,
            forall|j: int| 0 <= j < i ==> !is_ws_char(v@[j]),
        decreases n - i,
    {
        if crate::text::is_whitespace_char(v[i]) {
            proof {
                lemma_index_of_ws(v@, i as int);
            }
            return i;
        }
        i = i + 1;
    }
    proof {
        lemma_index_of_ws(v@, n as int);
    }
    n
}

/// Split the vector on single spaces.
fn split_spaces_exec(v: &Vec<char>) -> (toks: Vec<Vec<char>>)
    ensures
        toks.deep_view() == split_spaces(v@),
    decreases v@.len(),
{
    let n = v.len();
    let i = find_char_index(v, ' ');
    if i == n {
        let whole = subvec(v, 0, n);
        let mut r: Vec<Vec<char>> = Vec::new();
        r.push(whole);
        proof {
            assert(v@.subrange(0, n as int) =~= v@);
            assert(r.deep_view() =~~= seq![v@]);
        }
        r
    } else {
        let head = subvec(v, 0, i);
        let tail = subvec(v, i + 1, n);
        proof {
            assert(tail@ =~= v@.skip(i + 1));
            assert(head@ =~= v@.take(i as int));
        }
        let mut rest = split_spaces_exec(&tail);
        let ghost rest_view = rest.deep_view();
        rest.insert(0, head);
        proof {
            assert(rest.deep_view() =~~= seq![v@.take(i as int)] + rest_view);
        }
        rest
    }
}

/// Read every line of every alias source into one map from destination to
/// forwards and the list of destinations in the order met, resolve forward
/// chains to a fixed point, and return the resolved map.
pub fn parse_alias_to_map(alias_files: Vec<AliasFile>) -> (r: Result<AliasMap, SieveError>)
    ensures
        ({
            let built = built_entries(alias_files.deep_view());
            match r {
                Ok(m) => m.wf() && (built matches Ok(p) && resolved(rounds(p.0, p.1, 98), p.1)
                    && m@ == rounds(p.0, p.1, 98)),
                Err(e) => match built {
                    Err(e0) => e == e0,
                    Ok(p) => e == SieveError::InfiniteRecursion && !resolved(
                        rounds(p.0, p.1, 98),
                        p.1,
                    ),
                },
            }
        }),
{
    let ghost files = alias_files.deep_view();
    let mut redirect_map = AliasMap::new();
    let mut destinations: Vec<AliasEmailAddress> = Vec::new();
    let nf = alias_files.len();
    let mut fi: usize = 0;
    proof {
        assert(files.skip(0) =~= files);
        assert(destinations.deep_view() =~= Seq::<Seq<char>>::empty());
    }
    while fi < nf
        invariant
            nf == alias_files@.len(),
            nf == files.len(),
            fi <= nf,
            files == alias_files.deep_view(),
            redirect_map.wf(),
            dests_in_map(destinations.deep_view(), redirect_map@),
            built_entries(files) == build_sources(
                files.skip(fi as int),
                redirect_map@,
                destinations.deep_view(),
            ),
        decreases nf - fi,
    {
        let file = &alias_files[fi];
        let ghost domain = file.default_domain@;
        let ghost lines = file.content.deep_view();
        proof {
            assert(files[fi as int] == (lines, domain));
            assert(lines.skip(0) =~= lines);
        }
        let ghost m_f = redirect_map@;
        let ghost ds_f = destinations.deep_view();
        let nl = file.content.len();
        let mut li: usize = 0;
        while li < nl
            invariant
                nl == file.content@.len(),
                nl == lines.len(),
                li <= nl,
                lines == file.content.deep_view(),
                domain == file.default_domain@,
                redirect_map.wf(),
                dests_in_map(destinations.deep_view(), redirect_map@),
                build_file(lines, domain, m_f, ds_f) == build_file(
                    lines.skip(li as int),
                    domain,
                    redirect_map@,
                    destinations.deep_view(),
                ),
                fi < files.len(),
                files == alias_files.deep_view(),
                files[fi as int] == (lines, domain),
                built_entries(files) == build_sources(files.skip(fi as int), m_f, ds_f),
            decreases nl - li,
        {
            let ghost m_l = redirect_map@;
            let ghost ds_l = destinations.deep_view();
            let ghost line = lines[li as int];
            proof {
                assert(lines.skip(li as int)[0] == line);
                assert(lines.skip(li as int).drop_first() =~= lines.skip(li + 1 as int));
            }
            let lc = str_chars(file.content[li].as_str());
            proof {
                assert(lines[li as int] == file.content@[li as int]@);
                assert(lc@ == line);
            }
            let hash = find_char_index(&lc, '#');
            let content = subvec(&lc, 0, hash);
            proof {
                assert(content@ =~= strip_comment(line));
            }
            let w = find_ws_index(&content);
            if w == content.len() || w == 0 {
                proof {
                    assert(dest_token(content@).len() == 0);
                    assert(process_line(m_l, ds_l, line, domain) == Ok::<_, SieveError>(
                        (m_l, ds_l),
                    ));
                }
                li = li + 1;
                continue ;
            }
            let dest = subvec(&content, 0, w);
            let rest = subvec(&content, w, content.len());
            proof {
                assert(dest@ =~= dest_token(content@));
                assert(rest@ =~= content@.skip(index_of_ws(content@)));
            }
            let toks = split_spaces_exec(&rest);
            let ghost tokens = split_spaces(rest@);
            let mut fwds: Vec<AliasEmailAddress> = Vec::new();
            let nt = toks.len();
            let mut t: usize = 0;
            proof {
                assert(tokens.skip(0) =~= tokens);
                assert(fwds.deep_view() =~= Seq::<Seq<char>>::empty());
            }
            let mut failed: Option<SieveError> = None;
            while t < nt && failed.is_none()
                invariant
                    nt == toks@.len(),
                    nt == tokens.len(),
                    t <= nt,
                    tokens == toks.deep_view(),
                    domain == file.default_domain@,
                    failed is None ==> norm_forwards(tokens, domain, Seq::empty())
                        == norm_forwards(
                        tokens.skip(t as int),
                        domain,
                        fwds.deep_view(),
                    ),
                    failed matches Some(e) ==> norm_forwards(tokens, domain, Seq::empty())
                        == Err::<Seq<Seq<char>>, SieveError>(e),
                decreases nt - t, (if failed is Some {
                    0int
                } else {
                    1int
                }),
            {
                proof {
                    assert(tokens.skip(t as int)[0] == tokens[t as int]);
                    assert(tokens.skip(t as int).drop_first() =~= tokens.skip(t + 1 as int));
                    assert(toks@[t as int].deep_view() == tokens[t as int]);
                    assert(toks@[t as int].deep_view() =~= toks@[t as int]@);
                }
                let tok = &toks[t];
                let cleaned = crate::text::clean_token(tok);
                if cleaned.as_str().unicode_len() == 0 {
                    t = t + 1;
                } else {
                    match AliasEmailAddress::from_token(tok, file.default_domain.as_str()) {
                        Ok(a) => {
                            let ghost before = fwds.deep_view();
                            fwds.push(a);
                            proof {
                                assert(fwds.deep_view() =~= before.push(fwds@[fwds@.len() - 1]@));
                            }
                            t = t + 1;
                        },
                        Err(e) => {
                            failed = Some(e);
                        },
                    }
                }
            }
            match failed {
                Some(e) => {
                    proof {
                        assert(process_line(m_l, ds_l, line, domain) == Err::<
                            (SpecAliasMap, Seq<Seq<char>>),
                            SieveError,
                        >(e));
                        assert(build_file(lines, domain, m_f, ds_f) == Err::<
                            (SpecAliasMap, Seq<Seq<char>>),
                            SieveError,
                        >(e));
                        assert(files.skip(fi as int)[0] == files[fi as int]);
                        assert(built_entries(files) == Err::<
                            (SpecAliasMap, Seq<Seq<char>>),
                            SieveError,
                        >(e));
                    }
                    return Err(e);
                },
                None => {},
            }
            proof {
                assert(tokens.skip(nt as int) =~= Seq::<Seq<char>>::empty());
            }
            if fwds.is_empty() {
                proof {
                    assert(process_line(m_l, ds_l, line, domain) == Ok::<_, SieveError>(
                        (m_l, ds_l),
                    ));
                }
                li = li + 1;
                continue ;
            }
            match AliasEmailAddress::from_token(&dest, file.default_domain.as_str()) {
                Ok(a) => {
                    destinations.push(a.clone());
                    redirect_map.insert(a, fwds);
                    proof {
                        assert(destinations.deep_view() =~= ds_l.push(
                            destinations@[destinations@.len() - 1]@,
                        ));
                    }
                },
                Err(e) => {
                    proof {
                        assert(process_line(m_l, ds_l, line, domain) == Err::<
                            (SpecAliasMap, Seq<Seq<char>>),
                            SieveError,
                        >(e));
                        assert(build_file(lines, domain, m_f, ds_f) == Err::<
                            (SpecAliasMap, Seq<Seq<char>>),
                            SieveError,
                        >(e));
                        assert(files.skip(fi as int)[0] == files[fi as int]);
                        assert(built_entries(files) == Err::<
                            (SpecAliasMap, Seq<Seq<char>>),
                            SieveError,
                        >(e));
                    }
                    return Err(e);
                },
            }
            li = li + 1;
        }
        proof {
            assert(lines.skip(nl as int) =~= Seq::<Seq<char>>::empty());
            assert(files.skip(fi as int)[0] == files[fi as int]);
            assert(files.skip(fi as int).drop_first() =~= files.skip(fi + 1 as int));
        }
        fi = fi + 1;
    }
    proof {
        assert(files.skip(nf as int) =~= Seq::<(Seq<Seq<char>>, Seq<char>)>::empty());
    }
    match resolve(&mut redirect_map, &destinations) {
        Ok(_) => Ok(redirect_map),
        Err(e) => Err(e),
    }
}

} // verus!
