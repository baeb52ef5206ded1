//! Font families, the font manager, and text style descriptors.

use vstd::prelude::*;
use std::sync::Arc;

verus! {

/// Errors of the graphics layer.
#[derive(Debug, Clone)]
pub enum GraphicsError {
    /// A font could not be found, loaded or parsed.
    FontError(String),
}

/// Font style
#[derive(Debug, Clone, Copy, PartialEq, Eq, Hash, Structural)]
pub enum FontStyle {
    /// Normal style
    Normal,
    /// Italic style
    Italic,
}

/// Font weight
#[derive(Debug, Clone, Copy, PartialEq, Eq, Hash, Structural)]
pub enum FontWeight {
    /// Normal weight
    Normal,
    /// Bold weight
    Bold,
}

/// Text alignment
#[derive(Debug, Clone, Copy, PartialEq, Eq, Structural)]
pub enum TextAlign {
    /// Left aligned
    Left,
    /// Center aligned
    Center,
    /// Right aligned
    Right,
    /// Justified
    Justify,
}

/// Vertical text alignment
#[derive(Debug, Clone, Copy, PartialEq, Eq, Structural)]
pub enum VerticalAlign {
    /// Top aligned
    Top,
    /// Middle aligned
    Middle,
    /// Bottom aligned
    Bottom,
}

/// Font family
#[derive(Debug, Clone)]
pub struct FontFamily {
    /// Regular font
    pub regular: Arc<Vec<u8>>,
    /// Bold font
    pub bold: Option<Arc<Vec<u8>>>,
    /// Italic font
    pub italic: Option<Arc<Vec<u8>>>,
    /// Bold italic font
    pub bold_italic: Option<Arc<Vec<u8>>>,
}

/// The font data chosen for a style and weight: bold italic falls back to bold, then
/// italic, then regular; italic and bold fall back to regular.
pub open spec fn spec_font_for(f: FontFamily, style: FontStyle, weight: FontWeight) -> Seq<u8> {
    if style == FontStyle::Italic && weight == FontWeight::Bold {
        if f.bold_italic is Some {
            (*f.bold_italic->0)@
        } else if f.bold is Some {
            (*f.bold->0)@
        } else if f.italic is Some {
            (*f.italic->0)@
        } else {
            (*f.regular)@
        }
    } else if style == FontStyle::Italic {
        if f.italic is Some {
            (*f.italic->0)@
        } else {
            (*f.regular)@
        }
    } else if weight == FontWeight::Bold {
        if f.bold is Some {
            (*f.bold->0)@
        } else {
            (*f.regular)@
        }
    } else {
        (*f.regular)@
    }
}

/// The face chosen for a style and weight is the one the family has for exactly
/// that style and weight; where it has none, bold italic takes the bold face, then
/// the italic one, and every other request the regular face.
pub proof fn lemma_font_for_requested_face(f: FontFamily)
    ensures
        spec_font_for(f, FontStyle::Normal, FontWeight::Normal) == (*f.regular)@,
        f.italic is Some ==> spec_font_for(f, FontStyle::Italic, FontWeight::Normal) == (*f.italic->0)@,
        f.italic is None ==> spec_font_for(f, FontStyle::Italic, FontWeight::Normal) == (*f.regular)@,
        f.bold is Some ==> spec_font_for(f, FontStyle::Normal, FontWeight::Bold) == (*f.bold->0)@,
        f.bold is None ==> spec_font_for(f, FontStyle::Normal, FontWeight::Bold) == (*f.regular)@,
        f.bold_italic is Some ==> spec_font_for(f, FontStyle::Italic, FontWeight::Bold) == (*f.bold_italic->0)@,
        f.bold_italic is None && f.bold is Some ==> spec_font_for(f, FontStyle::Italic, FontWeight::Bold)
            == (*f.bold->0)@,
        f.bold_italic is None && f.bold is None && f.italic is Some ==> spec_font_for(
            f,
            FontStyle::Italic,
            FontWeight::Bold,
        ) == (*f.italic->0)@,
        f.bold_italic is None && f.bold is None && f.italic is None ==> spec_font_for(
            f,
            FontStyle::Italic,
            FontWeight::Bold,
        ) == (*f.regular)@,
{
}

impl FontFamily {
    /// Create from regular font only
    pub fn from_regular(data: Vec<u8>) -> (f: Self)
        ensures
            (*f.regular)@ == data@,
            f.bold is None,
            f.italic is None,
            f.bold_italic is None,
    {
        FontFamily { regular: Arc::new(data), bold: None, italic: None, bold_italic: None }
    }

    /// Get font for style
    pub fn get_font(&self, style: FontStyle, weight: FontWeight) -> (r: &[u8])
        ensures
            r@ == spec_font_for(*self, style, weight),
    {
        match (style, weight) {
            (FontStyle::Italic, FontWeight::Bold) => {
                if let Some(font) = &self.bold_italic {
                    font.as_slice()
                } else if let Some(font) = &self.bold {
                    font.as_slice()
                } else if let Some(font) = &self.italic {
                    font.as_slice()
                } else {
                    self.regular.as_slice()
                }
            },
            (FontStyle::Italic, _) => {
                if let Some(font) = &self.italic {
                    font.as_slice()
                } else {
                    self.regular.as_slice()
                }
            },
            (_, FontWeight::Bold) => {
                if let Some(font) = &self.bold {
                    font.as_slice()
                } else {
                    self.regular.as_slice()
                }
            },
            _ => self.regular.as_slice(),
        }
    }
}

/// Whether `ab_glyph` reads `data` as a font (a function of the bytes alone).
pub uninterp spec fn font_parses(data: Seq<u8>) -> bool;

/// Parses `data` with `ab_glyph::FontRef::try_from_slice`. Trusted: the result is
/// `Ok` exactly when the bytes parse (named by [`font_parses`]); the error's text is
/// the display of `ab_glyph::InvalidFont`, which its source writes as
/// `"InvalidFont"`.
#[verifier::external_body]
fn check_font(data: &[u8]) -> (r: Result<(), String>)
    ensures
        r is Ok <==> font_parses(data@),
        r matches Err(e) ==> e@ == "InvalidFont"@,
{
    match ab_glyph::FontRef::try_from_slice(data) {
        Ok(_) => Ok(()),
        Err(e) => Err(format!("{e}")),
    }
}

/// Font manager: font families by name.
#[derive(Debug, Clone)]
pub struct FontManager {
    families: Vec<(String, FontFamily)>,
}

impl FontManager {
    /// No name is registered twice.
    pub closed spec fn wf(self) -> bool {
        forall|i: int, j: int|
            0 <= i < j < self.families@.len() ==> self.families@[i].0@ != self.families@[j].0@
    }

    /// The registered families by name.
    pub closed spec fn families_view(&self) -> Map<Seq<char>, FontFamily> {
        Map::new(
            |k: Seq<char>| exists|i: int| 0 <= i < self.families@.len() && self.families@[i].0@ == k,
            |k: Seq<char>|
                self.families@[choose|i: int|
                    0 <= i < self.families@.len() && self.families@[i].0@ == k].1,
        )
    }

    /// Create a new font manager
    pub fn new() -> (m: Self)
        ensures
            m.wf(),
            m.families_view() == Map::<Seq<char>, FontFamily>::empty(),
    {
        let m = FontManager { families: Vec::new() };
        proof {
            assert(m.families_view() =~= Map::<Seq<char>, FontFamily>::empty());
        }
        m
    }

    /// Position of the family called `name`.
    fn position(&self, name: &String) -> (r: Option<usize>)
        ensures
            match r {
                Some(i) => i < self.families@.len() && self.families@[i as int].0@ == name@,
                None => forall|i: int| 0 <= i < self.families@.len() ==> self.families@[i].0@ != name@,
            },
    {
        let mut i: usize = 0;
        while i < self.families.len()
            invariant
                i <= self.families@.len(),
                forall|j: int| 0 <= j < i ==> self.families@[j].0@ != name@,
            decreases self.families@.len() - i,
        {
            if self.families[i].0 == *name {
                return Some(i);
            }
            i += 1;
        }
        None
    }

    /// Add font family (replacing any family of the same name)
    pub fn add_family(&mut self, name: String, family: FontFamily)
        requires
            old(self).wf(),
        ensures
            final(self).wf(),
            final(self).families_view() == old(self).families_view().insert(name@, family),
    {
        let ghost old_view = self.families_view();
        let ghost old_s = self.families@;
        match self.position(&name) {
            Some(i) => {
                let mut families = Vec::new();
                std::mem::swap(&mut families, &mut self.families);
                families.set(i, (name, family));
                self.families = families;
                proof {
                    let s = self.families@;
                    assert forall|a: int, b: int| 0 <= a < b < s.len() implies s[a].0@ != s[b].0@ by {
                        assert(old_s[a].0@ != old_s[b].0@);
                    }
                    assert(s[i as int].0@ == name@);
                }
            },
            None => {
                let mut families = Vec::new();
                std::mem::swap(&mut families, &mut self.families);
                families.push((name, family));
                self.families = families;
                proof {
                    let s = self.families@;
                    assert(s[s.len() - 1].0@ == name@);
                }
            },
        }
        proof {
            let s = self.families@;
            assert forall|k: Seq<char>| #[trigger] self.families_view().contains_key(k) <==> old_view.insert(
                name@,
                family,
            ).contains_key(k) by {
                if self.families_view().contains_key(k) {
                    let a = choose|a: int| 0 <= a < s.len() && s[a].0@ == k;
                    if k != name@ {
                        assert(old_s[a].0@ == k);
                    }
                }
                if old_view.contains_key(k) {
                    let a = choose|a: int| 0 <= a < old_s.len() && old_s[a].0@ == k;
                    if k != name@ {
                        assert(s[a].0@ == k);
                    }
                }
            }
            assert forall|k: Seq<char>| #[trigger] self.families_view().contains_key(k) implies self.families_view()[k]
                == old_view.insert(name@, family)[k] by {
                let a = choose|a: int| 0 <= a < s.len() && s[a].0@ == k;
                if k != name@ {
                    let b = choose|b: int| 0 <= b < old_s.len() && old_s[b].0@ == k;
                    assert(a == b);
                }
            }
            assert(self.families_view() =~= old_view.insert(name@, family));
        }
    }

    /// Get font family
    pub fn get_family(&self, name: &str) -> (r: Option<&FontFamily>)
        requires
            self.wf(),
        ensures
            match r {
                Some(f) => self.families_view().contains_key(name@) && *f == self.families_view()[name@],
                None => !self.families_view().contains_key(name@),
            },
    {
        let key = name.to_owned();
        match self.position(&key) {
            Some(i) => {
                proof {
                    let a = choose|a: int|
                        0 <= a < self.families@.len() && self.families@[a].0@ == name@;
                    assert(a == i);
                }
                Some(&self.families[i].1)
            },
            None => None,
        }
    }

    /// The font data of family `family` for a style and weight, checked to parse as
    /// a font: the lookup and checks that measuring or laying out text starts with.
    pub fn resolve_font(&self, family: &str, style: FontStyle, weight: FontWeight) -> (r: Result<&[u8], GraphicsError>)
        requires
            self.wf(),
        ensures
            !self.families_view().contains_key(family@) ==> (r matches Err(GraphicsError::FontError(m))
                && m@ == "Font family not found: "@ + family@),
            self.families_view().contains_key(family@) ==> ({
                let data = spec_font_for(self.families_view()[family@], style, weight);
                if font_parses(data) {
                    r matches Ok(d) && d@ == data
                } else {
                    r matches Err(GraphicsError::FontError(m)) && m@ == "Failed to parse font: "@
                        + "InvalidFont"@
                }
            }),
    {
        match self.get_family(family) {
            None => {
                let mut msg = "Font family not found: ".to_owned();
                msg.append(family);
                Err(GraphicsError::FontError(msg))
            },
            Some(f) => {
                let data = f.get_font(style, weight);
                match check_font(data) {
                    Ok(()) => Ok(data),
                    Err(e) => {
                        let mut msg = "Failed to parse font: ".to_owned();
                        msg.append(e.as_str());
                        Err(GraphicsError::FontError(msg))
                    },
                }
            },
        }
    }

    /// Load system font (simplified - would use platform-specific APIs): system fonts
    /// are not supported, so this always reports a font error naming the font.
    pub fn load_system_font(&mut self, name: &str) -> (r: Result<(), GraphicsError>)
        ensures
            r matches Err(GraphicsError::FontError(msg)) && msg@ == "System font loading not implemented: "@
                + name@,
            *final(self) == *old(self),
    {
        let mut msg = "System font loading not implemented: ".to_owned();
        msg.append(name);
        Err(GraphicsError::FontError(msg))
    }
}

/// Registering a family and then looking its name up gives that family; other names
/// are unaffected.
pub proof fn lemma_family_read_after_write(
    m: Map<Seq<char>, FontFamily>,
    name: Seq<char>,
    f: FontFamily,
    other: Seq<char>,
)
    requires
        other != name,
    ensures
        m.insert(name, f).contains_key(name) && m.insert(name, f)[name] == f,
        m.insert(name, f).contains_key(other) == m.contains_key(other),
        m.contains_key(other) ==> m.insert(name, f)[other] == m[other],
{
}

impl Default for FontManager {
    fn default() -> (m: Self)
        ensures
            m.wf(),
            m.families_view() == Map::<Seq<char>, FontFamily>::empty(),
    {
        Self::new()
    }
}
} // verus!
