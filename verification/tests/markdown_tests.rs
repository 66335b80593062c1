use mark_hulk::markdown::{
    line_at, line_starts, outline, render_blocks, resolve_image, set_light, to_html, to_pango,
    Block, Highlighter,
};
use mark_hulk::text::esc;

const SRC: &str = "# Title\n\nA paragraph with **bold**.\n\n## Section\n\n```rust\nfn main() {}\n```\n\n| a | b |\n|---|---|\n| 1 | 2 |\n";

#[test]
fn html_is_standalone() {
    let html = to_html(SRC, "Doc");
    assert!(html.starts_with("<!DOCTYPE html>"));
    assert!(html.contains("<h1>Title</h1>"));
    assert!(html.contains("<table>"));
}

#[test]
fn html_title_is_escaped() {
    let html = to_html("text", "A & <B>");
    assert!(html.contains("<title>A &amp; &lt;B&gt;</title>"));
    assert!(html.contains("<p>text</p>"));
    assert!(html.ends_with("\n</body>\n</html>\n"));
}

#[test]
fn blocks_of_a_document() {
    let hl = Highlighter::new(false);
    let blocks = render_blocks(SRC, None, &hl);
    assert_eq!(blocks.len(), 5);
    match &blocks[0] {
        Block::Heading { level, markup, text, line } => {
            assert_eq!(*level, 1);
            assert_eq!(markup, "<span size=\"180%\" weight=\"bold\">Title</span>");
            assert_eq!(text, "Title");
            assert_eq!(*line, 1);
        }
        _ => panic!("expected a heading"),
    }
    match &blocks[1] {
        Block::Markup(m) => assert_eq!(m, "A paragraph with <b>bold</b>."),
        _ => panic!("expected markup"),
    }
    match &blocks[2] {
        Block::Heading { level, text, line, markup } => {
            assert_eq!(*level, 2);
            assert_eq!(text, "Section");
            assert_eq!(*line, 5);
            assert!(markup.starts_with("<span size=\"150%\""));
        }
        _ => panic!("expected a heading"),
    }
    match &blocks[3] {
        Block::Code(m) => {
            assert!(m.starts_with("<tt><span foreground=\"#"));
            assert!(m.ends_with("</span></tt>"));
            assert!(m.contains("main"));
        }
        _ => panic!("expected code"),
    }
    match &blocks[4] {
        Block::Table { head, rows } => {
            assert_eq!(head, &vec!["a".to_string(), "b".to_string()]);
            assert_eq!(rows, &vec![vec!["1".to_string(), "2".to_string()]]);
        }
        _ => panic!("expected a table"),
    }
}

#[test]
fn outline_lists_headings_with_lines() {
    let items = outline(SRC);
    assert_eq!(items.len(), 2);
    assert_eq!((items[0].level, items[0].text.as_str(), items[0].line), (1, "Title", 1));
    assert_eq!((items[1].level, items[1].text.as_str(), items[1].line), (2, "Section", 5));
}

#[test]
fn outline_skips_empty_headings() {
    let items = outline("#\n\n### `code` head\n");
    assert_eq!(items.len(), 1);
    assert_eq!(items[0].level, 3);
    assert_eq!(items[0].text, "code head");
    assert_eq!(items[0].line, 3);
}

#[test]
fn lists_get_markers() {
    let hl = Highlighter::new(false);
    let blocks = render_blocks("- a\n- b\n\n3. x\n4. y\n", None, &hl);
    assert_eq!(blocks.len(), 1);
    match &blocks[0] {
        Block::Markup(m) => assert_eq!(m, "•  a\n•  b\n\n3. x\n4. y"),
        _ => panic!("expected markup"),
    }
}

#[test]
fn task_lists_and_rules() {
    let hl = Highlighter::new(false);
    let blocks = render_blocks("- [x] done\n- [ ] todo\n\n---\n", None, &hl);
    match &blocks[0] {
        Block::Markup(m) => {
            assert!(m.starts_with("•  ☑  done\n•  ☐  todo"));
            assert!(m.ends_with("──────────────────────"));
        }
        _ => panic!("expected markup"),
    }
}

#[test]
fn inline_markup_is_escaped() {
    let hl = Highlighter::new(false);
    let blocks = render_blocks("*it* ~~no~~ `a<b` [l](http://x.y/?a&b) 5 > 3\n", None, &hl);
    match &blocks[0] {
        Block::Markup(m) => assert_eq!(
            m,
            "<i>it</i> <s>no</s> <tt>a&lt;b</tt> <a href=\"http://x.y/?a&amp;b\">l</a> 5 &gt; 3"
        ),
        _ => panic!("expected markup"),
    }
}

#[test]
fn images_resolve_against_the_base_dir() {
    let hl = Highlighter::new(false);
    let blocks = render_blocks("![a cat](img/cat.png)\n", Some("/docs"), &hl);
    match &blocks[0] {
        Block::Image { path, url, alt } => {
            assert_eq!(path.as_deref(), Some("/docs/img/cat.png"));
            assert_eq!(url, "img/cat.png");
            assert_eq!(alt, "a cat");
        }
        _ => panic!("expected an image"),
    }
}

#[test]
fn resolve_image_cases() {
    assert_eq!(resolve_image("HTTPS://example.com/a.png", Some("/d")), None);
    assert_eq!(resolve_image("data:image/png;base64,xx", Some("/d")), None);
    assert_eq!(resolve_image("file:///abs/p.png", None), Some("/abs/p.png".to_string()));
    assert_eq!(resolve_image("/abs/q.png", None), Some("/abs/q.png".to_string()));
    assert_eq!(resolve_image("rel.png", None), None);
    assert_eq!(resolve_image("rel.png", Some("/d/")), Some("/d/rel.png".to_string()));
    assert_eq!(resolve_image("rel.png", Some("")), Some("rel.png".to_string()));
}

#[test]
fn pango_export_flattens_blocks() {
    let hl = Highlighter::new(true);
    let out = to_pango("# H\n\n![alt](u.png)\n\n| a | b |\n|---|---|\n| 1 | 2 |\n", None, &hl);
    assert_eq!(
        out,
        "<span size=\"180%\" weight=\"bold\">H</span>\n\n<i>[image: alt u.png]</i>\n\n<tt>a\tb\n1\t2\n</tt>\n\n"
    );
}

#[test]
fn escape_covers_markup_characters() {
    assert_eq!(esc("<a href=\"x\">'&'</a>"), "&lt;a href=&quot;x&quot;&gt;&#39;&amp;&#39;&lt;/a&gt;");
    assert_eq!(esc("plain ü"), "plain ü");
}

#[test]
fn line_numbers_follow_newlines() {
    let starts = line_starts("ab\ncd\n\nx".as_bytes());
    assert_eq!(starts, vec![0, 3, 6, 7]);
    assert_eq!(line_at(&starts, 0), 1);
    assert_eq!(line_at(&starts, 2), 1);
    assert_eq!(line_at(&starts, 3), 2);
    assert_eq!(line_at(&starts, 6), 3);
    assert_eq!(line_at(&starts, 100), 4);
}

#[test]
fn palette_switches() {
    let mut hl = Highlighter::new(false);
    assert!(!hl.is_light_palette());
    let dark = render_blocks("```rust\nfn f() {}\n```\n", None, &hl);
    set_light(&mut hl, true);
    assert!(hl.is_light_palette());
    let light = render_blocks("```rust\nfn f() {}\n```\n", None, &hl);
    match (&dark[0], &light[0]) {
        (Block::Code(d), Block::Code(l)) => assert_ne!(d, l),
        _ => panic!("expected code blocks"),
    }
}

use mark_hulk::markdown::{code_markup, collect_blocks, Draft, MdEvent, MdTag, MdTagEnd, Span};

#[test]
fn fold_of_hand_written_events() {
    let source = "x\n\n# Head\n";
    let events = vec![
        MdEvent::Start(MdTag::Paragraph, 0),
        MdEvent::Text("a<b".to_string()),
        MdEvent::SoftBreak,
        MdEvent::Start(MdTag::Strong, 0),
        MdEvent::Text("c".to_string()),
        MdEvent::End(MdTagEnd::Strong),
        MdEvent::End(MdTagEnd::Paragraph),
        MdEvent::Start(MdTag::Heading(2), 3),
        MdEvent::Text("  Head ".to_string()),
        MdEvent::End(MdTagEnd::Heading(2)),
        MdEvent::Start(MdTag::CodeBlock(Some("rust extra".to_string())), 9),
        MdEvent::Text("fn f() {}\n".to_string()),
        MdEvent::End(MdTagEnd::CodeBlock),
        MdEvent::Start(MdTag::List(Some(7)), 9),
        MdEvent::Start(MdTag::Item, 9),
        MdEvent::Text("seven".to_string()),
        MdEvent::End(MdTagEnd::Item),
        MdEvent::Start(MdTag::Item, 9),
        MdEvent::Text("eight".to_string()),
        MdEvent::End(MdTagEnd::Item),
        MdEvent::End(MdTagEnd::List(true)),
    ];
    let drafts = collect_blocks(source, &events, None);
    assert_eq!(drafts.len(), 4);
    match &drafts[0] {
        Draft::Markup(m) => assert_eq!(m, "a&lt;b <b>c</b>"),
        _ => panic!("expected markup"),
    }
    match &drafts[1] {
        Draft::Heading { level, markup, text, line } => {
            assert_eq!(*level, 2);
            assert_eq!(markup, "<span size=\"150%\" weight=\"bold\">  Head </span>");
            assert_eq!(text, "Head");
            assert_eq!(*line, 3);
        }
        _ => panic!("expected a heading"),
    }
    match &drafts[2] {
        Draft::Code { code, lang } => {
            assert_eq!(code, "fn f() {}\n");
            assert_eq!(lang, "rust");
        }
        _ => panic!("expected code"),
    }
    match &drafts[3] {
        Draft::Markup(m) => assert_eq!(m, "7. seven\n8. eight"),
        _ => panic!("expected markup"),
    }
}

#[test]
fn code_markup_of_spans() {
    let lines = vec![
        Ok(vec![
            Span { red: 0xC0, green: 0xC5, blue: 0xCE, text: "let".to_string() },
            Span { red: 10, green: 255, blue: 0, text: " a<b\n".to_string() },
        ]),
        Err("x & y".to_string()),
    ];
    assert_eq!(
        code_markup(&lines),
        "<tt><span foreground=\"#C0C5CE\">let</span><span foreground=\"#0AFF00\"> a&lt;b\n</span>x &amp; y</tt>"
    );
}

#[test]
fn base_dir_only_moves_image_paths() {
    let hl = Highlighter::new(false);
    let src = "# H\n\n![a](p.png) and ![b](https://x/y.png)\n\ntext\n";
    let one = render_blocks(src, Some("/one"), &hl);
    let two = render_blocks(src, None, &hl);
    assert_eq!(one.len(), two.len());
    let mut images = 0;
    for (a, b) in one.iter().zip(two.iter()) {
        match (a, b) {
            (
                Block::Image { path: p1, url: u1, alt: a1 },
                Block::Image { path: p2, url: u2, alt: a2 },
            ) => {
                images += 1;
                assert_eq!((u1, a1), (u2, a2));
                if u1 == "p.png" {
                    assert_eq!(p1.as_deref(), Some("/one/p.png"));
                    assert_eq!(p2, &None);
                } else {
                    assert_eq!((p1, p2), (&None, &None));
                }
            }
            (Block::Markup(x), Block::Markup(y)) => assert_eq!(x, y),
            (Block::Heading { markup: x, .. }, Block::Heading { markup: y, .. }) => assert_eq!(x, y),
            _ => panic!("blocks differ in kind"),
        }
    }
    assert_eq!(images, 2);
}

use mark_hulk::markdown::{pick_syntax, syntax_name};

#[test]
fn syntax_by_token_then_extension_then_plain_text() {
    let some = |s: &str| Some(s.to_string());
    assert_eq!(pick_syntax(some("Rust"), some("C"), "Plain Text".to_string()), "Rust");
    assert_eq!(pick_syntax(None, some("C"), "Plain Text".to_string()), "C");
    assert_eq!(pick_syntax(None, None, "Plain Text".to_string()), "Plain Text");
}

#[test]
fn code_languages_find_bundled_syntaxes() {
    let hl = Highlighter::new(false);
    assert_eq!(syntax_name(&hl, "rs"), "Rust");
    assert_eq!(syntax_name(&hl, "rust"), "Rust");
    assert_eq!(syntax_name(&hl, "py"), "Python");
    assert_eq!(syntax_name(&hl, "no-such-language"), "Plain Text");
}

#[test]
fn headings_keep_their_levels_and_lines() {
    let hl = Highlighter::new(false);
    let blocks = render_blocks("# A\n\ntext\n\n###### B\n", None, &hl);
    let heads: Vec<(u8, usize)> = blocks
        .iter()
        .filter_map(|b| match b {
            Block::Heading { level, line, .. } => Some((*level, *line)),
            _ => None,
        })
        .collect();
    assert_eq!(heads, vec![(1, 1), (6, 5)]);
}
