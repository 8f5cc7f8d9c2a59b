use project_reindeer::credits::{
    bbcode_credits_text, markdown_credits_text, str_lt, type_sorted_assets, AssetInfo,
};

fn asset(name: &str, author: Option<&str>, ty: &str, custom: Option<&str>) -> AssetInfo {
    AssetInfo {
        name: name.to_string(),
        author: author.map(|a| a.to_string()),
        source: format!("https://example.org/{}", name),
        license: "CC0".to_string(),
        license_source: "https://creativecommons.org/publicdomain/zero/1.0/".to_string(),
        ty: ty.to_string(),
        custom_attribution: custom.map(|c| c.to_string()),
    }
}

#[test]
fn lexicographic_order_of_strings() {
    let s = |x: &str| x.to_string();
    assert!(str_lt(&s("abc"), &s("abd")));
    assert!(str_lt(&s("ab"), &s("abc")));
    assert!(!str_lt(&s("abc"), &s("abc")));
    assert!(!str_lt(&s("b"), &s("abc")));
    assert!(str_lt(&s("Z"), &s("a")));
    assert!(str_lt(&s(""), &s("a")));
}

#[test]
fn groups_by_type_and_sorts_by_name() {
    let assets = vec![
        asset("Rock", Some("Kenney"), "model", None),
        asset("Wind", None, "sound", None),
        asset("Cabin", Some("Kenney"), "model", None),
        asset("Bell", Some("Someone"), "sound", None),
        asset("Tree", None, "model", None),
    ];
    let groups = type_sorted_assets(assets);
    let keys: Vec<&str> = groups.iter().map(|(k, _)| k.as_str()).collect();
    assert_eq!(keys, vec!["model", "sound"]);
    let names: Vec<Vec<&str>> = groups
        .iter()
        .map(|(_, v)| v.iter().map(|a| a.name.as_str()).collect())
        .collect();
    assert_eq!(names, vec![vec!["Cabin", "Rock", "Tree"], vec!["Bell", "Wind"]]);
}

#[test]
fn no_assets_no_groups() {
    assert!(type_sorted_assets(vec![]).is_empty());
}

#[test]
fn markdown_credits() {
    let groups = type_sorted_assets(vec![
        asset("Rock", Some("Kenney"), "MODEL", Some("Rock by Kenney, thanks!")),
        asset("Wind", None, "sound", None),
    ]);
    let expected = "# Credits\nThe following assets are used in this project.\nHuge thanks to all the creators!\n\n\n\
## Model\n\n\
**Rock**\n- Author: **Kenney**\n- Source: **[link](https://example.org/Rock)**\n- License: **[CC0](https://creativecommons.org/publicdomain/zero/1.0/)**\n- Rock by Kenney, thanks!\n\n\
\n\
## Sound\n\n\
**Wind**\n- Author: *(not attributed)*\n- Source: **[link](https://example.org/Wind)**\n- License: **[CC0](https://creativecommons.org/publicdomain/zero/1.0/)**\n\n\
\n";
    assert_eq!(markdown_credits_text(&groups), expected);
}

#[test]
fn bbcode_credits() {
    let groups = type_sorted_assets(vec![
        asset("Rock", Some("Kenney"), "model", None),
        asset("Wind", None, "sound", None),
    ]);
    let expected = "[p][b]Credits and Acknowledgements[/b][/p]\n\
This project would not have been possible wothout the use of assets and creations from other creators.\n\
See the bundled Markdown file for a detailed list of assets, authors, and licenses.\n\n\n\
[b]Model:[/b]\n\n\
[i]Rock[/i] by Kenney ([url=https://example.org/Rock]External link[/url])\n\n\n\
[b]Sound:[/b]\n\n\
[i]Wind[/i] ([url=https://example.org/Wind]External link[/url])\n\n\n";
    assert_eq!(bbcode_credits_text(&groups), expected);
}
