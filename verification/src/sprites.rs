//! Ship pictures: skinned sprite paths, the built-in SVG drawing of each ship kind, and that
//! drawing as a `data:` URL.
use vstd::prelude::*;
use crate::text::{chars_of, push_chars, push_str, slice_chars, string_of};
use crate::types::{ship_kind, ship_kind_of, skin_folder, skin_folder_of};

verus! {

broadcast use vstd::seq_lib::group_seq_properties;

/// The index of the last `c` in `s`.
pub open spec fn last_index(s: Seq<char>, c: char) -> Option<int>
    decreases s.len(),
{
    if s.len() == 0 {
        None
    } else if s.last() == c {
        Some(s.len() - 1)
    } else {
        last_index(s.drop_last(), c)
    }
}

proof fn lemma_last_index_scan(s: Seq<char>, c: char, k: int)
    requires
        0 <= k <= s.len(),
        forall|j: int| k <= j < s.len() ==> s[j] != c,
    ensures
        last_index(s, c) == last_index(s.take(k), c),
    decreases s.len() - k,
{
    if k < s.len() {
        assert(s.drop_last() == s.take(s.len() - 1));
        lemma_last_index_scan(s.drop_last(), c, k);
        assert(s.drop_last().take(k) == s.take(k));
    } else {
        assert(s.take(k) == s);
    }
}

/// The path of a sprite in a skin: the skin's folder goes between the directory part and the
/// file name. An empty path, or a skin without a folder, leaves the path as it is.
pub open spec fn skinned_path(base: Seq<char>, folder: Seq<char>) -> Seq<char> {
    if base.len() == 0 || folder.len() == 0 {
        base
    } else {
        match last_index(base, '/') {
            None => folder + seq!['/'] + base,
            Some(i) => base.take(i + 1) + folder + seq!['/'] + base.skip(i + 1),
        }
    }
}

/// The path of a sprite in the skin with key `skin`.
pub fn apply_skin_to_path(base_path: &str, skin: &str) -> (r: String)
    ensures
        r@ == skinned_path(base_path@, skin_folder_of(skin@)),
{
    let folder = skin_folder(skin);
    let base = chars_of(base_path);
    let fv = chars_of(folder);
    if base.len() == 0 || fv.len() == 0 {
        return string_of(&base);
    }
    let mut k: usize = base.len();
    while k > 0 && base[k - 1] != '/'
        invariant
            k <= base.len(),
            forall|j: int| k <= j < base.len() ==> base@[j] != '/',
        decreases k,
    {
        k = k - 1;
    }
    proof {
        lemma_last_index_scan(base@, '/', k as int);
        if k > 0 {
            assert(base@.take(k as int).last() == '/');
        } else {
            assert(base@.take(0) =~= Seq::<char>::empty());
        }
    }
    let mut r = String::new();
    if k == 0 {
        push_chars(&mut r, &fv);
        r.push('/');
        push_chars(&mut r, &base);
    } else {
        let dir = slice_chars(&base, 0, k);
        let file = slice_chars(&base, k, base.len());
        push_chars(&mut r, &dir);
        push_chars(&mut r, &fv);
        r.push('/');
        push_chars(&mut r, &file);
        assert(dir@ =~= base@.take(k as int));
        assert(file@ =~= base@.skip(k as int));
    }
    assert(r@ =~= skinned_path(base_path@, skin_folder_of(skin@)));
    r
}

/// The SVG shapes drawn for a ship type, filled with colour `c`.
pub open spec fn svg_body(ty: Seq<char>, c: Seq<char>) -> Seq<char> {
    if ty == "Fighter"@ {
        "<polygon points=\"50,15 65,70 50,60 35,70\" fill=\""@ + c
            + "\" stroke=\"#000\" stroke-width=\"2\"/>"@
    } else if ty == "Corvette"@ {
        "<polygon points=\"50,10 70,55 60,75 40,75 30,55\" fill=\""@ + c
            + "\" stroke=\"#000\" stroke-width=\"2\"/>"@
    } else if ty == "Frigate"@ {
        "<polygon points=\"50,8 72,50 62,80 38,80 28,50\" fill=\""@ + c
            + "\" stroke=\"#000\" stroke-width=\"2\"/><rect x=\"42\" y=\"55\" width=\"16\" height=\"25\" fill=\"#000\" opacity=\"0.3\"/>"@
    } else if ty == "Cruiser"@ {
        "<polygon points=\"50,8 78,35 78,70 50,88 22,70 22,35\" fill=\""@ + c
            + "\" stroke=\"#000\" stroke-width=\"2\"/><circle cx=\"50\" cy=\"50\" r=\"10\" fill=\"#000\" opacity=\"0.35\"/>"@
    } else if ty == "HeavyCruiser"@ {
        "<polygon points=\"50,6 82,30 85,72 50,92 15,72 18,30\" fill=\""@ + c
            + "\" stroke=\"#000\" stroke-width=\"2\"/><rect x=\"35\" y=\"35\" width=\"30\" height=\"30\" fill=\"#000\" opacity=\"0.35\"/><rect x=\"42\" y=\"20\" width=\"16\" height=\"10\" fill=\""@
            + c + "\" stroke=\"#000\" stroke-width=\"1.5\"/>"@
    } else if ty == "Destroyer"@ {
        "<polygon points=\"50,8 85,45 75,85 50,75 25,85 15,45\" fill=\""@ + c
            + "\" stroke=\"#000\" stroke-width=\"2\"/><polygon points=\"50,30 62,55 50,60 38,55\" fill=\"#000\" opacity=\"0.4\"/>"@
    } else if ty == "PlayerCommandShip"@ {
        "<polygon points=\"50,5 60,38 92,38 66,58 76,92 50,72 24,92 34,58 8,38 40,38\" fill=\""@ + c
            + "\" stroke=\"#000\" stroke-width=\"2\"/>"@
    } else {
        "<rect x=\"20\" y=\"20\" width=\"60\" height=\"60\" fill=\""@ + c
            + "\" stroke=\"#000\" stroke-width=\"2\"/>"@
    }
}

/// The SVG drawing of a ship type, in its kind's colour.
pub open spec fn ship_svg_of(ty: Seq<char>) -> Seq<char> {
    "<svg viewBox=\"0 0 100 100\" xmlns=\"http://www.w3.org/2000/svg\" aria-label=\""@ + ty
        + "\">"@ + svg_body(ty, ship_kind_of(ty).color@) + "</svg>"@
}

fn push_svg_body(out: &mut String, ty: &str, c: &str)
    ensures
        final(out)@ == old(out)@ + svg_body(ty@, c@),
{
    let tv = chars_of(ty);
    let fighter = chars_of("Fighter");
    let corvette = chars_of("Corvette");
    let frigate = chars_of("Frigate");
    let cruiser = chars_of("Cruiser");
    let heavy = chars_of("HeavyCruiser");
    let destroyer = chars_of("Destroyer");
    let command = chars_of("PlayerCommandShip");
    if crate::text::chars_eq(&tv, &fighter) {
        push_str(out, "<polygon points=\"50,15 65,70 50,60 35,70\" fill=\"");
        push_str(out, c);
        push_str(out, "\" stroke=\"#000\" stroke-width=\"2\"/>");
    } else if crate::text::chars_eq(&tv, &corvette) {
        push_str(out, "<polygon points=\"50,10 70,55 60,75 40,75 30,55\" fill=\"");
        push_str(out, c);
        push_str(out, "\" stroke=\"#000\" stroke-width=\"2\"/>");
    } else if crate::text::chars_eq(&tv, &frigate) {
        push_str(out, "<polygon points=\"50,8 72,50 62,80 38,80 28,50\" fill=\"");
        push_str(out, c);
        push_str(out, "\" stroke=\"#000\" stroke-width=\"2\"/><rect x=\"42\" y=\"55\" width=\"16\" height=\"25\" fill=\"#000\" opacity=\"0.3\"/>");
    } else if crate::text::chars_eq(&tv, &cruiser) {
        push_str(out, "<polygon points=\"50,8 78,35 78,70 50,88 22,70 22,35\" fill=\"");
        push_str(out, c);
        push_str(out, "\" stroke=\"#000\" stroke-width=\"2\"/><circle cx=\"50\" cy=\"50\" r=\"10\" fill=\"#000\" opacity=\"0.35\"/>");
    } else if crate::text::chars_eq(&tv, &heavy) {
        push_str(out, "<polygon points=\"50,6 82,30 85,72 50,92 15,72 18,30\" fill=\"");
        push_str(out, c);
        push_str(out, "\" stroke=\"#000\" stroke-width=\"2\"/><rect x=\"35\" y=\"35\" width=\"30\" height=\"30\" fill=\"#000\" opacity=\"0.35\"/><rect x=\"42\" y=\"20\" width=\"16\" height=\"10\" fill=\"");
        push_str(out, c);
        push_str(out, "\" stroke=\"#000\" stroke-width=\"1.5\"/>");
    } else if crate::text::chars_eq(&tv, &destroyer) {
        push_str(out, "<polygon points=\"50,8 85,45 75,85 50,75 25,85 15,45\" fill=\"");
        push_str(out, c);
        push_str(out, "\" stroke=\"#000\" stroke-width=\"2\"/><polygon points=\"50,30 62,55 50,60 38,55\" fill=\"#000\" opacity=\"0.4\"/>");
    } else if crate::text::chars_eq(&tv, &command) {
        push_str(out, "<polygon points=\"50,5 60,38 92,38 66,58 76,92 50,72 24,92 34,58 8,38 40,38\" fill=\"");
        push_str(out, c);
        push_str(out, "\" stroke=\"#000\" stroke-width=\"2\"/>");
    } else {
        push_str(out, "<rect x=\"20\" y=\"20\" width=\"60\" height=\"60\" fill=\"");
        push_str(out, c);
        push_str(out, "\" stroke=\"#000\" stroke-width=\"2\"/>");
    }
    assert(final(out)@ =~= old(out)@ + svg_body(ty@, c@));
}

/// The built-in SVG drawing of a ship type, in its kind's colour.
pub fn ship_svg(ty: &str) -> (r: String)
    ensures
        r@ == ship_svg_of(ty@),
{
    let k = ship_kind(ty);
    let mut r = String::new();
    push_str(&mut r, "<svg viewBox=\"0 0 100 100\" xmlns=\"http://www.w3.org/2000/svg\" aria-label=\"");
    push_str(&mut r, ty);
    push_str(&mut r, "\">");
    push_svg_body(&mut r, ty, k.color);
    push_str(&mut r, "</svg>");
    assert(r@ =~= ship_svg_of(ty@));
    r
}

/// How one character is written in a `data:` URL of an SVG drawing.
pub open spec fn url_char(ch: char) -> Seq<char> {
    if ch == '#' {
        "%23"@
    } else if ch == '"' {
        "%22"@
    } else if ch == '<' {
        "%3C"@
    } else if ch == '>' {
        "%3E"@
    } else if ch == '\n' || ch == '\r' || ch == '\t' {
        seq![' ']
    } else {
        seq![ch]
    }
}

/// A text written for a `data:` URL, character by character.
pub open spec fn url_escape(s: Seq<char>) -> Seq<char>
    decreases s.len(),
{
    if s.len() == 0 {
        Seq::empty()
    } else {
        url_escape(s.drop_last()) + url_char(s.last())
    }
}

/// The drawing of a ship type as a `data:` URL.
pub open spec fn ship_svg_url_of(ty: Seq<char>) -> Seq<char> {
    "data:image/svg+xml;utf8,"@ + url_escape(ship_svg_of(ty))
}

/// The built-in drawing of a ship type as a `data:` URL.
pub fn ship_svg_data_url(ty: &str) -> (r: String)
    ensures
        r@ == ship_svg_url_of(ty@),
{
    let svg = ship_svg(ty);
    let sv = chars_of(svg.as_str());
    let mut out = String::new();
    push_str(&mut out, "data:image/svg+xml;utf8,");
    let ghost head = out@;
    let mut i: usize = 0;
    while i < sv.len()
        invariant
            i <= sv.len(),
            out@ == head + url_escape(sv@.take(i as int)),
        decreases sv.len() - i,
    {
        let ch = sv[i];
        assert(sv@.take(i + 1).drop_last() =~= sv@.take(i as int));
        assert(sv@.take(i + 1).last() == ch);
        if ch == '#' {
            push_str(&mut out, "%23");
        } else if ch == '"' {
            push_str(&mut out, "%22");
        } else if ch == '<' {
            push_str(&mut out, "%3C");
        } else if ch == '>' {
            push_str(&mut out, "%3E");
        } else if ch == '\n' || ch == '\r' || ch == '\t' {
            out.push(' ');
        } else {
            out.push(ch);
        }
        assert(out@ =~= head + url_escape(sv@.take(i + 1)));
        i = i + 1;
    }
    assert(sv@.take(sv.len() as int) =~= sv@);
    out
}

/// A text written for a `data:` URL holds no `#`, `"`, `<`, `>` and no line break or tab.
pub proof fn law_url_escape_safe(s: Seq<char>)
    ensures
        forall|i: int| 0 <= i < url_escape(s).len() ==> {
            let c = #[trigger] url_escape(s)[i];
            c != '#' && c != '"' && c != '<' && c != '>' && c != '\n' && c != '\r' && c != '\t'
        },
    decreases s.len(),
{
    if s.len() > 0 {
        law_url_escape_safe(s.drop_last());
        let a = url_escape(s.drop_last());
        let b = url_char(s.last());
        reveal_strlit("%23");
        reveal_strlit("%22");
        reveal_strlit("%3C");
        reveal_strlit("%3E");
        assert forall|i: int| 0 <= i < (a + b).len() implies {
            let c = #[trigger] (a + b)[i];
            c != '#' && c != '"' && c != '<' && c != '>' && c != '\n' && c != '\r' && c != '\t'
        } by {
            if i >= a.len() {
                assert((a + b)[i] == b[i - a.len()]);
            } else {
                assert((a + b)[i] == a[i]);
            }
        }
    }
}

} // verus!
