//! Rendering the reverse index as a self-contained HTML page.

use vstd::prelude::*;
use crate::index::{entries_wf, IndexEntry};
use crate::paths::{file_name, is_named_comp, path_components, stem, stem_chars};
use crate::text::{append_str, chars_of, push_char};
use crate::url::{path_to_url, url_for};

verus! {

/// Everything of the page before the first ingredient.
pub const PAGE_HEAD: &'static str = "<!DOCTYPE html>
<html lang=\"en\">
<head>
    <meta charset=\"UTF-8\">
    <meta name=\"viewport\" content=\"width=device-width, initial-scale=1.0\">
    <title>Recipe Ingredient Index</title>
    <style>
        body {
            font-family: -apple-system, BlinkMacSystemFont, \"Segoe UI\", Roboto, sans-serif;
            max-width: 800px;
            margin: 0 auto;
            padding: 20px;
            line-height: 1.6;
        }
        h1 {
            color: #2c3e50;
            border-bottom: 2px solid #eee;
            padding-bottom: 10px;
        }
        .ingredient {
            margin: 20px 0;
        }
        .ingredient-name {
            font-weight: bold;
            color: #34495e;
            margin-bottom: 5px;
        }
        .recipe-list {
            margin-left: 20px;
            list-style-type: none;
        }
        .recipe-list li {
            margin: 5px 0;
        }
        a {
            color: #3498db;
            text-decoration: none;
        }
        a:hover {
            text-decoration: underline;
        }
    </style>
</head>
<body>
    <h1>Recipe Ingredient Index</h1>
";

/// Everything of the page after the last ingredient.
pub const PAGE_TAIL: &'static str = "</body>\n</html>";

/// How character `c` is written in HTML text or an attribute value.
pub open spec fn escape_char(c: char) -> Seq<char> {
    if c == '<' {
        "&lt;"@
    } else if c == '>' {
        "&gt;"@
    } else if c == '&' {
        "&amp;"@
    } else if c == '"' {
        "&quot;"@
    } else if c == '\'' {
        "&#39;"@
    } else {
        seq![c]
    }
}

/// `s` with the characters that are special in HTML escaped.
pub open spec fn html_escaped(s: Seq<char>) -> Seq<char>
    decreases s.len(),
{
    if s.len() == 0 {
        seq![]
    } else {
        html_escaped(s.drop_last()) + escape_char(s.last())
    }
}

/// `s` with each `-` and `_` turned into a space.
pub open spec fn spaced(s: Seq<char>) -> Seq<char> {
    s.map_values(|c: char| if c == '-' || c == '_' { ' ' } else { c })
}

/// The text of a recipe's link: its file stem with `-` and `_` as spaces.
pub open spec fn title_of(path: Seq<char>) -> Seq<char> {
    match file_name(path) {
        Some(n) => spaced(stem(n)),
        None => "Unknown Recipe"@,
    }
}

/// The list item that links to the recipe at `p`.
pub open spec fn link_item(p: Seq<char>, base_url: Seq<char>, base_dir: Seq<char>) -> Seq<char> {
    "        <li><a href=\""@ + html_escaped(url_for(p, base_url, base_dir)) + "\">"@
        + html_escaped(title_of(p)) + "</a></li>\n"@
}

/// The list items of the recipes at `ps`, in order.
pub open spec fn link_items(ps: Seq<Seq<char>>, base_url: Seq<char>, base_dir: Seq<char>) -> Seq<
    char,
>
    decreases ps.len(),
{
    if ps.len() == 0 {
        seq![]
    } else {
        link_items(ps.drop_last(), base_url, base_dir) + link_item(ps.last(), base_url, base_dir)
    }
}

/// The block of one ingredient: its name, then the links to its recipes.
pub open spec fn ingredient_block(e: IndexEntry, base_url: Seq<char>, base_dir: Seq<char>) -> Seq<
    char,
> {
    "<div class=\"ingredient\">\n"@ + "    <div class=\"ingredient-name\">"@ + html_escaped(
        e.ingredient@,
    ) + "</div>\n"@ + "    <ul class=\"recipe-list\">\n"@ + link_items(
        e.recipes.deep_view(),
        base_url,
        base_dir,
    ) + "    </ul>\n"@ + "</div>\n"@
}

/// The blocks of the entries `es`, in order.
pub open spec fn blocks(es: Seq<IndexEntry>, base_url: Seq<char>, base_dir: Seq<char>) -> Seq<char>
    decreases es.len(),
{
    if es.len() == 0 {
        seq![]
    } else {
        blocks(es.drop_last(), base_url, base_dir) + ingredient_block(es.last(), base_url, base_dir)
    }
}

/// The whole page for the entries `es`.
pub open spec fn index_page(es: Seq<IndexEntry>, base_url: Seq<char>, base_dir: Seq<char>) -> Seq<
    char,
> {
    PAGE_HEAD@ + blocks(es, base_url, base_dir) + PAGE_TAIL@
}

/// Appends `t` to `s` with the characters that are special in HTML escaped.
pub fn push_escaped(s: &mut String, t: &str)
    ensures
        final(s)@ == old(s)@ + html_escaped(t@),
{
    let v = chars_of(t);
    let mut i: usize = 0;
    while i < v.len()
        invariant
            i <= v.len(),
            v@ == t@,
            s@ == old(s)@ + html_escaped(v@.subrange(0, i as int)),
        decreases v.len() - i,
    {
        let ghost before = s@;
        let c = v[i];
        if c == '<' {
            append_str(s, "&lt;");
        } else if c == '>' {
            append_str(s, "&gt;");
        } else if c == '&' {
            append_str(s, "&amp;");
        } else if c == '"' {
            append_str(s, "&quot;");
        } else if c == '\'' {
            append_str(s, "&#39;");
        } else {
            push_char(s, c);
        }
        assert(s@ == before + escape_char(c));
        assert(v@.subrange(0, i + 1).drop_last() =~= v@.subrange(0, i as int));
        i += 1;
        assert(s@ =~= old(s)@ + html_escaped(v@.subrange(0, i as int)));
    }
    assert(v@.subrange(0, i as int) =~= t@);
}

/// The text of the link to the recipe at `path`: its file stem with `-`
/// and `_` as spaces, or `Unknown Recipe` where the path names no file.
pub fn recipe_title(path: &str) -> (r: String)
    ensures
        r@ == title_of(path@),
{
    let cs = path_components(path);
    if cs.len() > 0 {
        let last = chars_of(cs[cs.len() - 1].as_str());
        if is_named_comp(&last) {
            let st = stem_chars(&last);
            let mut r = String::new();
            let mut i: usize = 0;
            while i < st.len()
                invariant
                    i <= st.len(),
                    r@ == spaced(st@.subrange(0, i as int)),
                decreases st.len() - i,
            {
                let c = st[i];
                if c == '-' || c == '_' {
                    push_char(&mut r, ' ');
                } else {
                    push_char(&mut r, c);
                }
                i += 1;
                assert(r@ =~= spaced(st@.subrange(0, i as int)));
            }
            assert(st@.subrange(0, i as int) =~= st@);
            return r;
        }
    }
    let mut r = String::new();
    append_str(&mut r, "Unknown Recipe");
    r
}

/// The HTML page of the index `es`, whose ingredients ascend: a fixed head,
/// then for each entry in order its escaped name and one link per recipe path, then a fixed tail.
pub fn generate_html_index(es: &Vec<IndexEntry>, base_url: &str, base_dir: &str) -> (r: String)
    requires
        entries_wf(es@),
    ensures
        r@ == index_page(es@, base_url@, base_dir@),
{
    let mut html = String::new();
    append_str(&mut html, PAGE_HEAD);
    let mut i: usize = 0;
    while i < es.len()
        invariant
            i <= es.len(),
            html@ == PAGE_HEAD@ + blocks(es@.subrange(0, i as int), base_url@, base_dir@),
        decreases es.len() - i,
    {
        let e = &es[i];
        let ghost start = html@;
        append_str(&mut html, "<div class=\"ingredient\">\n");
        append_str(&mut html, "    <div class=\"ingredient-name\">");
        push_escaped(&mut html, e.ingredient.as_str());
        append_str(&mut html, "</div>\n");
        append_str(&mut html, "    <ul class=\"recipe-list\">\n");
        let ghost list_start = html@;
        let ghost ps = e.recipes.deep_view();
        let mut j: usize = 0;
        while j < e.recipes.len()
            invariant
                e == es@[i as int],
                ps == e.recipes.deep_view(),
                j <= e.recipes.len(),
                html@ == list_start + link_items(ps.subrange(0, j as int), base_url@, base_dir@),
            decreases e.recipes.len() - j,
        {
            let p = e.recipes[j].as_str();
            assert(p@ == ps[j as int]);
            let url = path_to_url(p, base_url, base_dir);
            let title = recipe_title(p);
            append_str(&mut html, "        <li><a href=\"");
            push_escaped(&mut html, url.as_str());
            append_str(&mut html, "\">");
            push_escaped(&mut html, title.as_str());
            append_str(&mut html, "</a></li>\n");
            assert(ps.subrange(0, j + 1).drop_last() =~= ps.subrange(0, j as int));
            j += 1;
            assert(html@ =~= list_start + link_items(ps.subrange(0, j as int), base_url@, base_dir@));
        }
        assert(ps.subrange(0, j as int) =~= ps);
        append_str(&mut html, "    </ul>\n");
        append_str(&mut html, "</div>\n");
        assert(html@ =~= start + ingredient_block(es@[i as int], base_url@, base_dir@));
        assert(es@.subrange(0, i + 1).drop_last() =~= es@.subrange(0, i as int));
        i += 1;
        assert(html@ =~= PAGE_HEAD@ + blocks(es@.subrange(0, i as int), base_url@, base_dir@));
    }
    append_str(&mut html, PAGE_TAIL);
    assert(es@.subrange(0, i as int) =~= es@);
    html
}

} // verus!
