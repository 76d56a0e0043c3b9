use ap_project::datasets::housing::{split_fields, split_lines};

fn lines_of(text: &str) -> Vec<&str> {
    split_lines(text.as_bytes()).into_iter().map(|(a, b)| &text[a..b]).collect()
}

fn fields_of(text: &str) -> Vec<&str> {
    split_fields(text.as_bytes(), 0, text.len(), b',')
        .into_iter()
        .map(|(a, b)| &text[a..b])
        .collect()
}

#[test]
fn lines_match_str_lines() {
    for text in [
        "",
        "\n",
        "a",
        "a\n",
        "a\nb",
        "a\r\nb\r\n",
        "a\rb\n\r\n",
        "longitude,latitude\n-122.23,37.88\n\n-122.22,37.86",
        "x\r",
        "\r\n\r\nz",
    ] {
        assert_eq!(lines_of(text), text.lines().collect::<Vec<_>>(), "text = {text:?}");
    }
}

#[test]
fn fields_match_str_split() {
    for text in ["", ",", "a", "a,b", "a,,b,", "-122.23,37.88,41.0,880.0,,322.0,126.0,8.3252,452600.0,NEAR BAY"] {
        assert_eq!(fields_of(text), text.split(',').collect::<Vec<_>>(), "text = {text:?}");
    }
}

#[test]
fn fields_of_a_line_inside_a_file() {
    let text = "h1,h2\n1.5,2.5,x\n";
    let lines = split_lines(text.as_bytes());
    assert_eq!(lines, vec![(0, 5), (6, 15)]);
    let (a, b) = lines[1];
    assert_eq!(split_fields(text.as_bytes(), a, b, b','), vec![(6, 9), (10, 13), (14, 15)]);
}
