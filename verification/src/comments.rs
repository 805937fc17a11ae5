//! Line comments: the prefix for the document's syntax and toggling it on
//! the touched lines.

use vstd::prelude::*;
use crate::editor::EditorCore;
use crate::lineblock::{texts, lemma_body_len};
use crate::lineops::{id_map, lemma_id_map_image};
use crate::strs::{chars_of, same_chars, copy_chars};
use crate::tabs::{all_ws, lead_ws, trim_start, lemma_lead_ws, lead_ws_len, sub_chars, spec_is_whitespace};
use crate::document::append_chars;

verus! {

/// ASCII upper-case letters lowered; every other character kept.
pub open spec fn ascii_lower(c: char) -> char {
    if 'A' <= c <= 'Z' { ((c as u32) + 32) as char } else { c }
}

/// A name with its ASCII letters lowered.
pub open spec fn lower_name(s: Seq<char>) -> Seq<char> {
    s.map_values(|c: char| ascii_lower(c))
}

/// The line-comment prefix for a (lower-case) syntax name; `//` for any
/// other syntax.
pub open spec fn comment_prefix(lang: Seq<char>) -> Seq<char> {
    if lang == "python"@ || lang == "ruby"@ || lang == "shellscript"@ || lang == "bash"@ || lang == "yaml"@
        || lang == "toml"@ || lang == "ini"@ || lang == "properties"@ || lang == "r"@ || lang == "perl"@ {
        "#"@
    } else if lang == "sql"@ || lang == "lua"@ {
        "--"@
    } else if lang == "batch file"@ || lang == "bat"@ || lang == "dosbatch"@ {
        "::"@
    } else {
        "//"@
    }
}

/// `t` starts with `p`.
pub open spec fn starts_with(t: Seq<char>, p: Seq<char>) -> bool {
    p.len() <= t.len() && t.take(p.len() as int) == p
}

/// A line that holds something besides white space.
pub open spec fn commentable(s: Seq<char>) -> bool {
    !all_ws(s)
}

/// A line whose text after its indentation starts with the prefix.
pub open spec fn is_commented(s: Seq<char>, p: Seq<char>) -> bool {
    trim_start(s).len() > 0 && starts_with(trim_start(s), p)
}

/// Every line with text already carries the prefix: toggling removes it.
pub open spec fn unwrap_mode(lines: Seq<Seq<char>>, p: Seq<char>) -> bool {
    forall|i: int| 0 <= i < lines.len() ==> !commentable(#[trigger] lines[i]) || is_commented(lines[i], p)
}

/// A line after toggling: blank lines stay; otherwise the prefix (and one
/// space after it, if any) is removed after the indentation, or the prefix
/// and a space are put there.
pub open spec fn toggled(s: Seq<char>, p: Seq<char>, unwrap: bool) -> Seq<char> {
    let ind = s.take(lead_ws(s) as int);
    let t = trim_start(s);
    if !commentable(s) {
        s
    } else if unwrap {
        let rest = t.skip(p.len() as int);
        ind + (if rest.len() > 0 && rest[0] == ' ' { rest.skip(1) } else { rest })
    } else {
        ind + p + seq![' '] + t
    }
}

/// Whether `s` equals the string `lit`.
pub fn eq_lit(s: &[char], lit: &str) -> (r: bool)
    ensures
        r == (s@ == lit@),
{
    let v = chars_of(lit);
    same_chars(s, v.as_slice())
}

/// `c` with an ASCII upper-case letter lowered.
pub fn lower_ascii_char(c: char) -> (r: char)
    ensures
        r == ascii_lower(c),
{
    if 'A' <= c && c <= 'Z' {
        let b = c as u8;
        let r = (b + 32) as char;
        assert(r == ascii_lower(c)) by {
            assert((c as u32) < 128);
        }
        r
    } else {
        c
    }
}

/// The comment prefix for a syntax name.
pub fn prefix_for_name(lang: &[char]) -> (r: Vec<char>)
    ensures
        r@ == comment_prefix(lang@),
{
    if eq_lit(lang, "python") || eq_lit(lang, "ruby") || eq_lit(lang, "shellscript") || eq_lit(lang, "bash")
        || eq_lit(lang, "yaml") || eq_lit(lang, "toml") || eq_lit(lang, "ini") || eq_lit(lang, "properties")
        || eq_lit(lang, "r") || eq_lit(lang, "perl") {
        chars_of("#")
    } else if eq_lit(lang, "sql") || eq_lit(lang, "lua") {
        chars_of("--")
    } else if eq_lit(lang, "batch file") || eq_lit(lang, "bat") || eq_lit(lang, "dosbatch") {
        chars_of("::")
    } else {
        chars_of("//")
    }
}

impl EditorCore {
    /// The document's syntax name, lower-cased (empty without one).
    pub open spec fn syntax_lang(&self) -> Seq<char> {
        match self.syntax_name {
            Some(n) => lower_name(n@),
            None => seq![],
        }
    }

    /// The line-comment prefix for the document's syntax (`//` for an
    /// unknown one).
    pub fn comment_prefix_for(&self) -> (r: Vec<char>)
        ensures
            r@ == comment_prefix(self.syntax_lang()),
    {
        let mut lang: Vec<char> = Vec::new();
        match &self.syntax_name {
            Some(n) => {
                let cs = chars_of(n.as_str());
                let mut i: usize = 0;
                while i < cs.len()
                    invariant
                        i <= cs@.len(),
                        cs@ == n@,
                        lang@ == lower_name(cs@.take(i as int)),
                    decreases cs@.len() - i,
                {
                    let c = lower_ascii_char(cs[i]);
                    lang.push(c);
                    i = i + 1;
                    proof {
                        assert(lang@ =~= lower_name(cs@.take(i as int)));
                    }
                }
                proof {
                    assert(cs@.take(i as int) =~= cs@);
                }
            },
            None => {
                assert(lang@ =~= Seq::<char>::empty());
            },
        }
        prefix_for_name(lang.as_slice())
    }
}

/// Whether `s` has text and it starts with `p` after the indentation.
pub fn commented_line(s: &[char], p: &[char]) -> (r: bool)
    ensures
        r == is_commented(s@, p@),
{
    proof {
        lemma_lead_ws(s@);
    }
    let k = lead_ws_len(s);
    if k == s.len() {
        return false;
    }
    let t = sub_chars(s, k, s.len());
    proof {
        assert(t@ =~= trim_start(s@));
    }
    if p.len() > t.len() {
        return false;
    }
    let head = sub_chars(t.as_slice(), 0, p.len());
    proof {
        assert(head@ =~= t@.take(p@.len() as int));
    }
    same_chars(head.as_slice(), p)
}

/// The line with something besides white space.
pub fn has_text(s: &[char]) -> (r: bool)
    ensures
        r == commentable(s@),
{
    proof {
        lemma_lead_ws(s@);
    }
    lead_ws_len(s) < s.len()
}

/// `s` toggled (see [`toggled`]); removing needs the prefix to be there.
pub fn toggle_line(s: &[char], p: &[char], unwrap: bool) -> (r: Vec<char>)
    requires
        unwrap && commentable(s@) ==> is_commented(s@, p@),
    ensures
        r@ == toggled(s@, p@, unwrap),
{
    proof {
        lemma_lead_ws(s@);
    }
    let k = lead_ws_len(s);
    if k == s.len() {
        return copy_chars(s);
    }
    let mut out = sub_chars(s, 0, k);
    let t = sub_chars(s, k, s.len());
    proof {
        assert(out@ =~= s@.take(k as int));
        assert(t@ =~= trim_start(s@));
    }
    if unwrap {
        let rest = sub_chars(t.as_slice(), p.len(), t.len());
        proof {
            assert(rest@ =~= t@.skip(p@.len() as int));
        }
        if rest.len() > 0 && rest[0] == ' ' {
            let r2 = sub_chars(rest.as_slice(), 1, rest.len());
            proof {
                assert(r2@ =~= rest@.skip(1));
            }
            append_chars(&mut out, r2.as_slice());
        } else {
            append_chars(&mut out, rest.as_slice());
        }
    } else {
        append_chars(&mut out, p);
        out.push(' ');
        append_chars(&mut out, t.as_slice());
        proof {
            assert(out@ =~= s@.take(k as int) + p@ + seq![' '] + t@);
        }
    }
    out
}

impl EditorCore {
    /// The touched lines (the whole document without a selection) after a
    /// comment toggle.
    pub open spec fn comment_toggled(&self) -> Seq<Seq<char>> {
        let p = comment_prefix(self.syntax_lang());
        let u = unwrap_mode(self.block_bodies(), p);
        self.block_bodies().map_values(|s: Seq<char>| toggled(s, p, u))
    }

    /// Toggles line comments on the touched lines (the whole document
    /// without a selection): when every line with text already starts,
    /// after its indentation, with the syntax's prefix, one prefix (and a
    /// space after it) is removed from each; otherwise the prefix and a
    /// space are put after each line's indentation. Blank lines stay.
    /// Returns whether anything changed; no change leaves everything as it
    /// was. Bookmarks stay.
    pub fn toggle_line_comment(&mut self) -> (r: bool)
        requires
            old(self).wf(),
            old(self).block_fits(old(self).comment_toggled()),
        ensures
            r == (old(self).comment_toggled() != old(self).block_bodies()),
            r ==> old(self).block_applied(final(self), old(self).comment_toggled(), id_map(old(self).block_bodies().len())),
            r ==> final(self).bookmarks.set() == old(self).bookmarks.set(),
            !r ==> *final(self) == *old(self),
    {
        let prefix = self.comment_prefix_for();
        let blk = self.collect_line_block();
        let ghost src = texts(blk.lines@);
        let ghost p = prefix@;
        let n = blk.lines.len();
        let mut unwrap = true;
        let mut i: usize = 0;
        while i < n
            invariant
                i <= n == blk.lines@.len(),
                src == texts(blk.lines@),
                p == prefix@,
                unwrap == (forall|j: int| 0 <= j < i ==> !commentable(#[trigger] src[j]) || is_commented(src[j], p)),
            decreases n - i,
        {
            let line = &blk.lines[i];
            assert(line@ == src[i as int]);
            if has_text(line.as_slice()) && !commented_line(line.as_slice(), prefix.as_slice()) {
                unwrap = false;
            }
            i = i + 1;
        }
        assert(unwrap == unwrap_mode(src, p));
        let mut lines: Vec<Vec<char>> = Vec::new();
        let mut changed = false;
        let mut i: usize = 0;
        proof {
            assert(texts(lines@) =~= src.take(0));
        }
        while i < n
            invariant
                i <= n == blk.lines@.len(),
                src == texts(blk.lines@),
                p == prefix@,
                unwrap == unwrap_mode(src, p),
                texts(lines@) == src.take(i as int).map_values(|s: Seq<char>| toggled(s, p, unwrap)),
                changed == (texts(lines@) != src.take(i as int)),
            decreases n - i,
        {
            let line = &blk.lines[i];
            assert(line@ == src[i as int]);
            let t = toggle_line(line.as_slice(), prefix.as_slice(), unwrap);
            let same = same_chars(t.as_slice(), line.as_slice());
            let ghost prev = texts(lines@);
            let ghost tv = t@;
            lines.push(t);
            proof {
                assert(texts(lines@) =~= prev.push(tv));
                assert(src.take(i + 1) =~= src.take(i as int).push(src[i as int]));
                assert(src.take(i + 1).map_values(|s: Seq<char>| toggled(s, p, unwrap))
                    =~= src.take(i as int).map_values(|s: Seq<char>| toggled(s, p, unwrap)).push(toggled(src[i as int], p, unwrap)));
                if !changed && same {
                    assert(texts(lines@) =~= src.take(i + 1));
                } else if !same {
                    assert(texts(lines@)[i as int] != src.take(i + 1)[i as int]);
                } else {
                    assert(texts(lines@).drop_last() =~= prev);
                    assert(src.take(i + 1).drop_last() =~= src.take(i as int));
                }
            }
            changed = changed || !same;
            i = i + 1;
        }
        proof {
            assert(src.take(i as int) =~= src);
        }
        if !changed {
            return false;
        }
        let m = lines.len();
        assert(texts(lines@).len() == m);
        let count = self.doc.line_count();
        assert(blk.a + m <= count);
        let map = crate::lineops::identity_map(m);
        self.apply_line_block(&blk, &lines, &map);
        proof {
            lemma_id_map_image(old(self).bookmarks.set(), blk.a as int, m as nat);
        }
        true
    }
}

/// Where the leading white space ends, told by the characters.
proof fn lemma_lead_ws_at(s: Seq<char>, k: int)
    requires
        0 <= k <= s.len(),
        forall|j: int| 0 <= j < k ==> spec_is_whitespace(#[trigger] s[j]),
        k < s.len() ==> !spec_is_whitespace(s[k]),
    ensures
        lead_ws(s) == k,
    decreases k,
{
    if k > 0 {
        let d = s.drop_first();
        assert forall|j: int| 0 <= j < k - 1 implies spec_is_whitespace(#[trigger] d[j]) by {
            assert(d[j] == s[j + 1]);
        }
        if k - 1 < d.len() {
            assert(d[k - 1] == s[k]);
        }
        lemma_lead_ws_at(d, k - 1);
        assert(spec_is_whitespace(s[0]));
    }
}

/// Commenting out a line that holds text, then uncommenting it, gives the
/// line back; the commented line counts as commented.
pub proof fn law_comment_line_roundtrip(s: Seq<char>, p: Seq<char>)
    requires
        commentable(s),
        p.len() > 0,
        !spec_is_whitespace(p[0]),
    ensures
        is_commented(toggled(s, p, false), p),
        toggled(toggled(s, p, false), p, true) == s,
{
    lemma_lead_ws(s);
    let k = lead_ws(s) as int;
    let ind = s.take(k);
    let t = trim_start(s);
    assert(t.len() > 0) by {
        if k == s.len() {
            assert forall|j: int| 0 <= j < s.len() implies spec_is_whitespace(#[trigger] s[j]) by {}
        }
    }
    let w = ind + p + seq![' '] + t;
    assert(toggled(s, p, false) == w);
    assert forall|j: int| 0 <= j < k implies spec_is_whitespace(#[trigger] w[j]) by {
        assert(w[j] == s[j]);
    }
    assert(w[k] == p[0]);
    lemma_lead_ws_at(w, k);
    let tw = trim_start(w);
    assert(tw =~= p + seq![' '] + t);
    assert(tw.take(p.len() as int) =~= p);
    assert(!all_ws(w)) by {
        assert(!spec_is_whitespace(w[k]));
    }
    assert(w.take(k) =~= ind);
    let rest = tw.skip(p.len() as int);
    assert(rest =~= seq![' '] + t);
    assert(rest.skip(1) =~= t);
    assert(ind + t =~= s);
}

/// Toggling comments twice on lines that were not all commented gives
/// them back: the first toggle comments out every line with text (blank
/// lines stay), after which all of them count as commented, so the second
/// toggle takes the prefixes off again.
pub proof fn law_comment_toggle_roundtrip(lines: Seq<Seq<char>>, p: Seq<char>)
    requires
        p.len() > 0,
        !spec_is_whitespace(p[0]),
        !unwrap_mode(lines, p),
    ensures
        unwrap_mode(lines.map_values(|s: Seq<char>| toggled(s, p, false)), p),
        lines.map_values(|s: Seq<char>| toggled(s, p, false)).map_values(|s: Seq<char>| toggled(s, p, true)) == lines,
{
    let w = lines.map_values(|s: Seq<char>| toggled(s, p, false));
    assert forall|i: int| 0 <= i < w.len() implies !commentable(#[trigger] w[i]) || is_commented(w[i], p) by {
        if commentable(lines[i]) {
            law_comment_line_roundtrip(lines[i], p);
        }
    }
    let b = w.map_values(|s: Seq<char>| toggled(s, p, true));
    assert forall|i: int| 0 <= i < lines.len() implies #[trigger] b[i] == lines[i] by {
        if commentable(lines[i]) {
            law_comment_line_roundtrip(lines[i], p);
        }
    }
    assert(b =~= lines);
}

/// Every line-comment prefix starts with a character that is not white
/// space, so the toggle round trip applies to each of them.
pub proof fn law_comment_prefix_shape(lang: Seq<char>)
    ensures
        comment_prefix(lang).len() > 0,
        !spec_is_whitespace(comment_prefix(lang)[0]),
{
    reveal_strlit("#");
    reveal_strlit("--");
    reveal_strlit("::");
    reveal_strlit("//");
}

/// The line-comment prefix of each syntax: `--` for SQL and Lua, `#` for
/// Python, Ruby, shell, Bash, YAML, TOML, INI, properties, R and Perl, `::`
/// for batch files, and `//` for every other syntax (each of the first
/// three only for those names).
pub proof fn law_comment_prefix_table(lang: Seq<char>)
    ensures
        (lang == seq!['s', 'q', 'l'] || lang == seq!['l', 'u', 'a']) ==> comment_prefix(lang) == seq!['-', '-'],
        (lang == seq!['p', 'y', 't', 'h', 'o', 'n'] || lang == seq!['r', 'u', 'b', 'y']
            || lang == seq!['s', 'h', 'e', 'l', 'l', 's', 'c', 'r', 'i', 'p', 't'] || lang == seq!['b', 'a', 's', 'h']
            || lang == seq!['y', 'a', 'm', 'l'] || lang == seq!['t', 'o', 'm', 'l'] || lang == seq!['i', 'n', 'i']
            || lang == seq!['p', 'r', 'o', 'p', 'e', 'r', 't', 'i', 'e', 's'] || lang == seq!['r']
            || lang == seq!['p', 'e', 'r', 'l']) ==> comment_prefix(lang) == seq!['#'],
        (lang == seq!['b', 'a', 't', 'c', 'h', ' ', 'f', 'i', 'l', 'e'] || lang == seq!['b', 'a', 't']
            || lang == seq!['d', 'o', 's', 'b', 'a', 't', 'c', 'h']) ==> comment_prefix(lang) == seq![':', ':'],
        comment_prefix(lang) == seq!['/', '/'] || comment_prefix(lang) == seq!['#'] || comment_prefix(lang) == seq!['-', '-']
            || comment_prefix(lang) == seq![':', ':'],
        comment_prefix(lang) == seq!['-', '-'] ==> (lang == seq!['s', 'q', 'l'] || lang == seq!['l', 'u', 'a']),
        comment_prefix(lang) == seq![':', ':'] ==> (lang == seq!['b', 'a', 't', 'c', 'h', ' ', 'f', 'i', 'l', 'e']
            || lang == seq!['b', 'a', 't'] || lang == seq!['d', 'o', 's', 'b', 'a', 't', 'c', 'h']),
        comment_prefix(lang) == seq!['#'] ==> (lang == seq!['p', 'y', 't', 'h', 'o', 'n'] || lang == seq!['r', 'u', 'b', 'y']
            || lang == seq!['s', 'h', 'e', 'l', 'l', 's', 'c', 'r', 'i', 'p', 't'] || lang == seq!['b', 'a', 's', 'h']
            || lang == seq!['y', 'a', 'm', 'l'] || lang == seq!['t', 'o', 'm', 'l'] || lang == seq!['i', 'n', 'i']
            || lang == seq!['p', 'r', 'o', 'p', 'e', 'r', 't', 'i', 'e', 's'] || lang == seq!['r']
            || lang == seq!['p', 'e', 'r', 'l']),
{
    reveal_strlit("python");
    reveal_strlit("ruby");
    reveal_strlit("shellscript");
    reveal_strlit("bash");
    reveal_strlit("yaml");
    reveal_strlit("toml");
    reveal_strlit("ini");
    reveal_strlit("properties");
    reveal_strlit("r");
    reveal_strlit("perl");
    reveal_strlit("sql");
    reveal_strlit("lua");
    reveal_strlit("batch file");
    reveal_strlit("bat");
    reveal_strlit("dosbatch");
    reveal_strlit("#");
    reveal_strlit("--");
    reveal_strlit("::");
    reveal_strlit("//");
    assert("sql"@ =~= seq!['s', 'q', 'l']);
    assert("lua"@ =~= seq!['l', 'u', 'a']);
    assert("python"@ =~= seq!['p', 'y', 't', 'h', 'o', 'n']);
    assert("ruby"@ =~= seq!['r', 'u', 'b', 'y']);
    assert("shellscript"@ =~= seq!['s', 'h', 'e', 'l', 'l', 's', 'c', 'r', 'i', 'p', 't']);
    assert("bash"@ =~= seq!['b', 'a', 's', 'h']);
    assert("yaml"@ =~= seq!['y', 'a', 'm', 'l']);
    assert("toml"@ =~= seq!['t', 'o', 'm', 'l']);
    assert("ini"@ =~= seq!['i', 'n', 'i']);
    assert("properties"@ =~= seq!['p', 'r', 'o', 'p', 'e', 'r', 't', 'i', 'e', 's']);
    assert("r"@ =~= seq!['r']);
    assert("perl"@ =~= seq!['p', 'e', 'r', 'l']);
    assert("batch file"@ =~= seq!['b', 'a', 't', 'c', 'h', ' ', 'f', 'i', 'l', 'e']);
    assert("bat"@ =~= seq!['b', 'a', 't']);
    assert("dosbatch"@ =~= seq!['d', 'o', 's', 'b', 'a', 't', 'c', 'h']);
    assert("#"@ =~= seq!['#']);
    assert("--"@ =~= seq!['-', '-']);
    assert("::"@ =~= seq![':', ':']);
    assert("//"@ =~= seq!['/', '/']);
}

} // verus!
