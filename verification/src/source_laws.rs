//! What the sources of skills point to.

use vstd::prelude::*;
use crate::axiom_laws::{is_tight, lemma_tight};
use crate::source::{
    base_name, relative, site_source, source_of, url_source, without_suffix, SourceModel,
};
use crate::text::{
    at, ends_with, find_char_from, holds, is_white, joined, lemma_find_char_from, rfind_to, split,
    split_from, starts_with,
};

verus! {

proof fn lemma_find_skip(s: Seq<char>, i: int, j: int, c: char)
    requires
        0 <= i <= s.len(),
        0 <= j <= s.len() - i,
    ensures
        find_char_from(s, i + j, c) == match find_char_from(s.skip(i), j, c) {
            Some(k) => Some(i + k),
            None => None,
        },
    decreases s.len() - i - j,
{
    let t = s.skip(i);
    if j < t.len() {
        assert(t[j] == s[i + j]);
        if t[j] != c {
            lemma_find_skip(s, i, j + 1, c);
        }
    }
}

proof fn lemma_split_skip(s: Seq<char>, i: int, j: int, c: char)
    requires
        0 <= i <= s.len(),
        0 <= j <= s.len() - i,
    ensures
        split_from(s, i + j, c) == split_from(s.skip(i), j, c),
    decreases s.len() - i - j,
{
    let t = s.skip(i);
    lemma_find_skip(s, i, j, c);
    lemma_find_char_from(t, j, c);
    match find_char_from(t, j, c) {
        Some(k) => {
            lemma_split_skip(s, i, k + 1, c);
            assert(s.subrange(i + j, i + k) =~= t.subrange(j, k));
        },
        None => {
            assert(s.skip(i + j) =~= t.skip(j));
        },
    }
}

proof fn lemma_split_whole(a: Seq<char>)
    requires
        !a.contains('/'),
    ensures
        split(a, '/') == seq![a],
{
    lemma_find_char_from(a, 0, '/');
    match find_char_from(a, 0, '/') {
        Some(k) => {
            assert(a.contains(a[k]));
        },
        None => {},
    }
    assert(a.skip(0) =~= a);
}

proof fn lemma_split_head(a: Seq<char>, rest: Seq<char>)
    requires
        !a.contains('/'),
    ensures
        split(a + "/"@ + rest, '/') == seq![a] + split(rest, '/'),
{
    reveal_strlit("/");
    let s = a + "/"@ + rest;
    let n = a.len() as int;
    lemma_find_char_from(s, 0, '/');
    assert(s[n] == '/');
    assert forall|j: int| 0 <= j < n implies #[trigger] s[j] != '/' by {
        assert(s[j] == a[j]);
        assert(a.contains(a[j]));
    }
    assert(find_char_from(s, 0, '/') == Some(n));
    lemma_split_skip(s, n + 1, 0, '/');
    assert(s.skip(n + 1) =~= rest);
    assert(s.subrange(0, n) =~= a);
}

proof fn lemma_joined_head(a: Seq<char>, rest: Seq<Seq<char>>, n: int)
    requires
        1 <= n <= rest.len(),
    ensures
        joined(seq![a] + rest, n + 1, "/"@) == a + "/"@ + joined(rest, n, "/"@),
    decreases n,
{
    let all = seq![a] + rest;
    assert(all[0] == a);
    assert(all[n] == rest[n - 1]);
    if n > 1 {
        lemma_joined_head(a, rest, n - 1);
        assert(joined(all, n + 1, "/"@) =~= a + "/"@ + joined(rest, n, "/"@));
    } else {
        assert(joined(all, 1, "/"@) == a);
    }
}

proof fn lemma_split_joined(s: Seq<char>)
    ensures
        split(s, '/').len() > 0,
        joined(split(s, '/'), split(s, '/').len() as int, "/"@) == s,
    decreases s.len(),
{
    lemma_find_char_from(s, 0, '/');
    match find_char_from(s, 0, '/') {
        Some(k) => {
            let a = s.subrange(0, k);
            let rest = s.skip(k + 1);
            lemma_split_joined(rest);
            lemma_split_skip(s, k + 1, 0, '/');
            let parts = split(rest, '/');
            assert(split(s, '/') == seq![a] + parts);
            lemma_joined_head(a, parts, parts.len() as int);
            reveal_strlit("/");
            assert(a + "/"@ + rest =~= s);
        },
        None => {
            assert(s.skip(0) =~= s);
        },
    }
}

/// A name of an owner, a repository or a branch: no slash, no colon, no white
/// space at its ends.
pub open spec fn is_name(s: Seq<char>) -> bool {
    is_tight(s) && !s.contains('/') && !s.contains(':')
}

/// An owner and a repository, with a slash between them, point to the whole
/// repository.
pub proof fn law_short_sources_point_to_repositories(owner: Seq<char>, repo: Seq<char>)
    requires
        is_name(owner),
        is_name(repo),
    ensures
        source_of(owner + "/"@ + repo) matches Ok(SourceModel::GithubTree {
            owner: o,
            repo: r,
            reference,
            path,
        }) && o == owner && r == repo && reference is None && path.len() == 0,
{
    reveal_strlit("/");
    reveal_strlit("://");
    let s = owner + "/"@ + repo;
    assert(s[0] == owner[0]);
    assert(s.last() == repo.last());
    lemma_tight(s);
    assert(repo.contains(repo.last()));
    if holds(s, "://"@) {
        let k = choose|k: int| #[trigger] at(s, k, "://"@);
        assert(s.subrange(k, k + 3)[0] == "://"@[0]);
        assert(s[k] == ':');
        if k < owner.len() {
            assert(owner[k] == ':');
            assert(owner.contains(owner[k]));
        } else if k > owner.len() {
            assert(repo[k - owner.len() - 1] == ':');
            assert(repo.contains(repo[k - owner.len() - 1]));
        }
    }
    lemma_split_head(owner, repo);
    lemma_split_whole(repo);
}

proof fn lemma_address(rest: Seq<char>)
    requires
        rest.len() > 0,
        !is_white(rest.last()),
        rest.last() != '/',
    ensures
        ({
            let s = "https://"@ + rest;
            source_of(s) == url_source(s, rest, s)
        }),
{
    reveal_strlit("https://");
    reveal_strlit("://");
    let s = "https://"@ + rest;
    assert(s[0] == 'h');
    assert(s.last() == rest.last());
    lemma_tight(s);
    assert(s.subrange(5, 8) =~= "://"@);
    assert(at(s, 5, "://"@));
    assert(s.subrange(0, 8) =~= "https://"@);
    assert(starts_with(s, "https://"@));
    assert(s.skip(8) =~= rest);
}

proof fn lemma_site(owner: Seq<char>, repo: Seq<char>)
    requires
        is_name(owner),
        is_name(repo),
    ensures
        split("github.com/"@ + owner + "/"@ + repo, '/') == seq!["github.com"@, owner, repo],
        forall|rest: Seq<char>|
            split(#[trigger] ("github.com/"@ + owner + "/"@ + repo + "/"@ + rest), '/') == seq![
                "github.com"@,
                owner,
                repo,
            ] + split(rest, '/'),
        !ends_with(repo, ".git"@) ==> without_suffix(repo, ".git"@) == repo,
{
    reveal_strlit("github.com/");
    reveal_strlit("github.com");
    reveal_strlit("/");
    let g = "github.com"@;
    let tail = owner + "/"@ + repo;
    assert(!g.contains('/')) by {
        assert forall|i: int| 0 <= i < g.len() implies g[i] != '/' by {}
    }
    assert("github.com/"@ + owner + "/"@ + repo =~= g + "/"@ + tail);
    lemma_split_head(g, tail);
    lemma_split_head(owner, repo);
    lemma_split_whole(repo);
    assert(seq![g] + (seq![owner] + seq![repo]) =~= seq![g, owner, repo]);
    assert forall|rest: Seq<char>|
        split(#[trigger] ("github.com/"@ + owner + "/"@ + repo + "/"@ + rest), '/') == seq![
            g,
            owner,
            repo,
        ] + split(rest, '/') by {
        let t2 = repo + "/"@ + rest;
        let t1 = owner + "/"@ + t2;
        assert("github.com/"@ + owner + "/"@ + repo + "/"@ + rest =~= g + "/"@ + t1);
        lemma_split_head(g, t1);
        lemma_split_head(owner, t2);
        lemma_split_head(repo, rest);
        assert(seq![g] + (seq![owner] + (seq![repo] + split(rest, '/'))) =~= seq![g, owner, repo]
            + split(rest, '/'));
    }
}

/// The address of a repository points to the whole of it.
pub proof fn law_addresses_point_to_repositories(owner: Seq<char>, repo: Seq<char>)
    requires
        is_name(owner),
        is_name(repo),
        !ends_with(repo, ".git"@),
    ensures
        source_of("https://"@ + ("github.com/"@ + owner + "/"@ + repo)) matches Ok(
            SourceModel::GithubTree { owner: o, repo: r, reference, path },
        ) && o == owner && r == repo && reference is None && path.len() == 0,
{
    let rest = "github.com/"@ + owner + "/"@ + repo;
    assert(rest.last() == repo.last());
    assert(repo.contains(repo.last()));
    lemma_address(rest);
    lemma_site(owner, repo);
}

/// An address with a branch and a path points to the directory at that path on
/// that branch, and to the file there where it says so.
pub proof fn law_addresses_point_to_directories_and_files(
    owner: Seq<char>,
    repo: Seq<char>,
    branch: Seq<char>,
    path: Seq<char>,
)
    requires
        is_name(owner),
        is_name(repo),
        !ends_with(repo, ".git"@),
        is_name(branch),
        is_tight(path),
        path.last() != '/',
    ensures
        source_of(
            "https://"@ + ("github.com/"@ + owner + "/"@ + repo + "/"@ + ("tree"@ + "/"@ + (branch
                + "/"@ + path))),
        ) matches Ok(SourceModel::GithubTree { owner: o, repo: r, reference, path: p }) && o
            == owner && r == repo && reference == Some(branch) && p == path,
        source_of(
            "https://"@ + ("github.com/"@ + owner + "/"@ + repo + "/"@ + ("blob"@ + "/"@ + (branch
                + "/"@ + path))),
        ) matches Ok(SourceModel::SingleFile { url, name }) && url
            == "https://raw.githubusercontent.com/"@ + owner + "/"@ + repo + "/"@ + branch + "/"@
            + path && name == base_name(path),
{
    lemma_site(owner, repo);
    reveal_strlit("tree");
    reveal_strlit("blob");
    assert("tree"@[0] != "blob"@[0]);
    lemma_deep(owner, repo, "tree"@, branch, path);
    lemma_deep(owner, repo, "blob"@, branch, path);
}

proof fn lemma_deep(
    owner: Seq<char>,
    repo: Seq<char>,
    kind: Seq<char>,
    branch: Seq<char>,
    path: Seq<char>,
)
    requires
        is_name(owner),
        is_name(repo),
        kind == "tree"@ || kind == "blob"@,
        is_name(branch),
        is_tight(path),
        path.last() != '/',
    ensures
        ({
            let rest = "github.com/"@ + owner + "/"@ + repo + "/"@ + (kind + "/"@ + (branch + "/"@
                + path));
            let s = "https://"@ + rest;
            let segs = split(rest, '/');
            &&& source_of(s) == site_source(segs, s)
            &&& segs.len() > 5
            &&& segs[1] == owner
            &&& segs[2] == repo
            &&& segs[3] == kind
            &&& segs[4] == branch
            &&& joined(segs.skip(5), segs.skip(5).len() as int, "/"@) == path
        }),
{
    reveal_strlit("tree");
    reveal_strlit("blob");
    let tail = kind + "/"@ + (branch + "/"@ + path);
    let rest = "github.com/"@ + owner + "/"@ + repo + "/"@ + tail;
    assert(rest.last() == path.last());
    lemma_address(rest);
    lemma_site(owner, repo);
    assert(!kind.contains('/')) by {
        assert forall|i: int| 0 <= i < kind.len() implies kind[i] != '/' by {}
    }
    lemma_split_head(kind, branch + "/"@ + path);
    lemma_split_head(branch, path);
    lemma_split_joined(path);
    let parts = split(path, '/');
    let segs = split(rest, '/');
    assert(segs == seq!["github.com"@, owner, repo] + (seq![kind] + (seq![branch] + parts)));
    assert(segs.skip(5) =~= parts);
}

proof fn lemma_last_slash(s: Seq<char>, n: int)
    requires
        0 <= n <= s.len(),
    ensures
        match rfind_to(s, n, '/') {
            Some(k) => 0 <= k < n && s[k] == '/' && forall|j: int|
                k < j < n ==> #[trigger] s[j] != '/',
            None => forall|j: int| 0 <= j < n ==> #[trigger] s[j] != '/',
        },
    decreases n,
{
    if n > 0 && s[n - 1] != '/' {
        lemma_last_slash(s, n - 1);
    }
}

/// The name of a file is what follows the last slash of its path.
pub proof fn law_files_go_by_their_last_name(dir: Seq<char>, file: Seq<char>)
    requires
        !file.contains('/'),
    ensures
        base_name(dir + "/"@ + file) == file,
        base_name(file) == file,
{
    reveal_strlit("/");
    let p = dir + "/"@ + file;
    let n = dir.len() as int;
    lemma_last_slash(p, p.len() as int);
    lemma_last_slash(file, file.len() as int);
    assert(p[n] == '/');
    assert forall|j: int| n < j < p.len() implies #[trigger] p[j] != '/' by {
        assert(p[j] == file[j - n - 1]);
        assert(file.contains(file[j - n - 1]));
    }
    assert(p.skip(n + 1) =~= file);
    assert forall|j: int| 0 <= j < file.len() implies #[trigger] file[j] != '/' by {
        assert(file.contains(file[j]));
    }
}

/// A file taken from a directory goes by its path there.
pub proof fn law_files_go_by_their_path_in_the_directory(dir: Seq<char>, file: Seq<char>)
    requires
        dir.len() > 0,
    ensures
        relative(dir, dir + "/"@ + file) == file,
        relative(Seq::empty(), file) == file,
{
    reveal_strlit("/");
    let p = dir + "/"@ + file;
    let d = dir + "/"@;
    assert(p.subrange(0, d.len() as int) =~= d);
    assert(p.skip(d.len() as int) =~= file);
    assert(file.skip(0) =~= file);
    assert(file.subrange(0, 0) =~= Seq::<char>::empty());
}

} // verus!
