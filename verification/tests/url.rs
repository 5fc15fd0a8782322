use irc::url::{
    get_url, github_api_url, github_step, github_summary, image_reply, image_summary, is_html, is_image,
    is_url_github, page_step, resolv_url_start, ContentKind, Fetch, GithubRepo, PageAction,
};

#[test]
fn resolv_url_test() {
    assert_eq!(get_url("abchttps://a.b.com/").unwrap(), "https://a.b.com/");
    assert_eq!(get_url("ftps://a.b.com").is_none(), true);
    assert_eq!(get_url("ftp://a.b.com/c/").is_none(), false);
    assert_eq!(
        get_url("http://packages.deepin.org/deepin/pool/main/d/deepin-boot-maker/").is_none(),
        false
    );
}

#[test]
fn test_is_url_github() {
    assert_eq!(is_url_github("https://github.com/sbwtw/irc_robot"), true);
}

#[test]
fn link_runs_to_white_space_and_ignores_case() {
    assert_eq!(get_url("see HTTPS://x.org/a b"), Some("HTTPS://x.org/a"));
    assert_eq!(get_url("x hTtP://y\tz"), Some("hTtP://y"));
    assert_eq!(get_url("https:// http://a"), Some("http://a"));
    assert_eq!(get_url("no link here"), None);
    assert_eq!(get_url("https://"), None);
    assert_eq!(get_url(""), None);
    // the long s folds to `s` under case-insensitive matching
    assert_eq!(get_url("httpſ://q"), Some("httpſ://q"));
}

#[test]
fn a_bare_link_is_its_own_link() {
    assert_eq!(get_url("ftp://h/p"), Some("ftp://h/p"));
}

#[test]
fn github_links_are_recognised_by_their_exact_start() {
    assert!(is_url_github("http://github.com/a/b"));
    assert!(!is_url_github("https://GitHub.com/a/b"));
    assert!(!is_url_github("https://gist.github.com/a"));
}

#[test]
fn github_api_address_names_owner_and_repository() {
    assert_eq!(
        github_api_url("https://github.com/sbwtw/irc_robot").as_deref(),
        Some("https://api.github.com/repos/sbwtw/irc_robot")
    );
    assert_eq!(
        github_api_url("https://github.com/rust-lang/rust/issues/1").as_deref(),
        Some("https://api.github.com/repos/rust-lang/rust")
    );
    assert_eq!(github_api_url("https://github.com/sbwtw"), None);
    assert_eq!(github_api_url("https://github.com/sbwtw/"), None);
    assert_eq!(
        github_api_url("https://github.com/a.b//GITHUB.COM/x/y").as_deref(),
        Some("https://api.github.com/repos/x/y")
    );
}

#[test]
fn github_summary_formats_counts() {
    let repo = GithubRepo {
        name: "irc_robot".into(),
        description: "an irc_robot written in rust".into(),
        stargazers_count: 1,
        forks_count: 0,
    };
    assert_eq!(
        github_summary(&repo),
        "↑ Github/irc_robot: an irc_robot written in rust. Star: 1, Fork: 0."
    );
    let repo = GithubRepo {
        name: "n".into(),
        description: "d".into(),
        stargazers_count: 1234567,
        forks_count: i64::MIN,
    };
    assert_eq!(
        github_summary(&repo),
        "↑ Github/n: d. Star: 1234567, Fork: -9223372036854775808."
    );
}

#[test]
fn title_is_read_from_the_page() {
    assert_eq!(
        is_html("<html><head><title>Web WeChat</title></head>").as_deref(),
        Some("↑ Title: Web WeChat")
    );
    assert_eq!(
        is_html("<TITLE>a</title> b </Title>\n<title>c</title>").as_deref(),
        Some("↑ Title: a</title> b ")
    );
    assert_eq!(
        is_html("<title>\n</title><title>x</title>").as_deref(),
        Some("↑ Title: x")
    );
    assert_eq!(is_html("<title></title>"), None);
    assert_eq!(is_html("<title>a\nb</title>"), None);
    assert_eq!(is_html("no title"), None);
}

#[test]
fn a_title_element_gives_its_text() {
    assert_eq!(
        is_html("<title>百度一下，你就知道</title>").as_deref(),
        Some("↑ Title: 百度一下，你就知道")
    );
}

const PNG_2X3: [u8; 68] = [
    137, 80, 78, 71, 13, 10, 26, 10, 0, 0, 0, 13, 73, 72, 68, 82, 0, 0, 0, 2, 0, 0, 0, 3, 8, 2, 0,
    0, 0, 54, 136, 73, 214, 0, 0, 0, 11, 73, 68, 65, 84, 120, 156, 99, 96, 192, 2, 0, 0, 21, 0, 1,
    170, 101, 151, 196, 0, 0, 0, 0, 73, 69, 78, 68, 174, 66, 96, 130,
];

#[test]
fn is_image_gives_width_then_height() {
    assert_eq!(
        is_image("png", &PNG_2X3).as_deref(),
        Some("↑ Image/png, size = 2x3 pixels")
    );
    assert_eq!(is_image("png", b"not an image"), None);
    assert_eq!(is_image("png", &[]), None);
}

#[test]
fn image_summary_formats_the_size() {
    assert_eq!(image_summary("gif", 640, 480), "↑ Image/gif, size = 640x480 pixels");
    assert_eq!(image_summary("x", 0, 4294967295), "↑ Image/x, size = 0x4294967295 pixels");
}

#[test]
fn resolving_starts_with_the_api_for_repositories() {
    match resolv_url_start("look https://github.com/sbwtw/irc_robot now") {
        Some(Fetch::Github { api_url, page_url }) => {
            assert_eq!(api_url, "https://api.github.com/repos/sbwtw/irc_robot");
            assert_eq!(page_url, "https://github.com/sbwtw/irc_robot");
        }
        _ => panic!("expected the GitHub API"),
    }
    match resolv_url_start("https://github.com/sbwtw") {
        Some(Fetch::Page { url }) => assert_eq!(url, "https://github.com/sbwtw"),
        _ => panic!("expected the page"),
    }
    match resolv_url_start("http://www.baidu.com") {
        Some(Fetch::Page { url }) => assert_eq!(url, "http://www.baidu.com"),
        _ => panic!("expected the page"),
    }
    assert!(resolv_url_start("nothing").is_none());
}

#[test]
fn github_step_replies_or_falls_back_to_the_page() {
    let repo = GithubRepo {
        name: "r".into(),
        description: "d".into(),
        stargazers_count: 2,
        forks_count: 3,
    };
    match github_step("https://github.com/o/r", Some(repo)) {
        Ok(t) => assert_eq!(t, "↑ Github/r: d. Star: 2, Fork: 3."),
        Err(_) => panic!("expected a reply"),
    }
    match github_step("https://github.com/o/r", None) {
        Err(Fetch::Page { url }) => assert_eq!(url, "https://github.com/o/r"),
        _ => panic!("expected the page"),
    }
}

#[test]
fn page_step_follows_status_and_content_type() {
    match page_step(false, "404 Not Found", ContentKind::Html) {
        PageAction::Reply(Some(t)) => assert_eq!(t, "↑ Err: 404 Not Found"),
        _ => panic!("expected an error reply"),
    }
    assert!(matches!(page_step(true, "200 OK", ContentKind::Html), PageAction::ReadTitle));
    match page_step(true, "200 OK", ContentKind::Image("jpeg".into())) {
        PageAction::ReadImage(s) => assert_eq!(s, "jpeg"),
        _ => panic!("expected to read the image"),
    }
    assert!(matches!(page_step(true, "200 OK", ContentKind::Other), PageAction::Reply(None)));
    assert!(matches!(page_step(true, "200 OK", ContentKind::Missing), PageAction::Reply(None)));
}

#[test]
fn is_image_reads_other_default_formats() {
    let mut pgm = b"P5\n2 3\n255\n".to_vec();
    pgm.extend_from_slice(&[0, 1, 2, 3, 4, 5]);
    assert_eq!(
        is_image("x-portable-graymap", &pgm).as_deref(),
        Some("↑ Image/x-portable-graymap, size = 2x3 pixels")
    );
}

#[test]
fn image_reply_follows_the_decoded_size() {
    assert_eq!(
        image_reply("webp", Some((16, 9))).as_deref(),
        Some("↑ Image/webp, size = 16x9 pixels")
    );
    assert_eq!(image_reply("webp", None), None);
}
