use sonic::lyrics::{
    content_fits, extract_meta, parse_krc_content, parse_krc_line, parse_krc_words,
    parse_lrc_content, parse_lrc_line, parse_qrc_content, parse_qrc_line, parse_time_to_ms,
    LyricFormat, LyricLine, LyricWord, Lyrics,
};

#[test]
fn test_parse_lrc_line() {
    let result = parse_lrc_line("[00:10.50]你好世界");
    assert!(result.is_some());
    let (time, text) = result.unwrap();
    assert_eq!(time, 10500);
    assert_eq!(text, "你好世界");
}

#[test]
fn test_find_line() {
    let mut lyrics = Lyrics::empty();
    lyrics.lines.push(LyricLine {
        start: 0,
        duration: 5000,
        words: vec![],
        text: "第一行".to_string(),
    });
    lyrics.lines.push(LyricLine {
        start: 5000,
        duration: 3000,
        words: vec![],
        text: "第二行".to_string(),
    });

    assert_eq!(lyrics.find_line(1000), Some(0));
    assert_eq!(lyrics.find_line(6000), Some(1));
    assert_eq!(lyrics.find_line(10000), None);
}

#[test]
fn lrc_line_millisecond_forms() {
    assert_eq!(parse_lrc_line("[01:02.345]x"), Some((62345, "x".to_string())));
    assert_eq!(parse_lrc_line("[01:02]  hi  "), Some((62000, "hi".to_string())));
    // A single fractional digit is neither hundredths nor milliseconds.
    assert_eq!(parse_lrc_line("[00:03.5]a"), Some((3000, "a".to_string())));
    // Two or three bytes that are not a number reject the line.
    assert_eq!(parse_lrc_line("[00:03.ab]a"), None);
    assert_eq!(parse_lrc_line("[00:03.é]a"), None);
    assert_eq!(parse_lrc_line("[ti:Song]"), None);
    assert_eq!(parse_lrc_line("no tag"), None);
    assert_eq!(parse_lrc_line("[1:2:3]x"), None);
    assert_eq!(parse_lrc_line("[+1:+2.+5]x"), Some((62050, "x".to_string())));
}

#[test]
fn extract_meta_reads_tag_content() {
    assert_eq!(extract_meta("[ti: 晴天 ]"), Some("晴天".to_string()));
    assert_eq!(extract_meta("[ar:周杰伦]"), Some("周杰伦".to_string()));
    assert_eq!(extract_meta("[ti:]"), None);
    assert_eq!(extract_meta("[ti"), None);
    assert_eq!(extract_meta("[a:b:c]]"), Some("b:c]".to_string()));
}

#[test]
fn time_to_ms_accepts_plain_milliseconds() {
    assert_eq!(parse_time_to_ms("12345"), Some(12345));
    assert_eq!(parse_time_to_ms("00:01.10"), Some(1100));
    assert_eq!(parse_time_to_ms("abc"), None);
}

#[test]
fn lrc_content_sets_durations_and_tags() {
    let text = "[ti:Title]\n[ar:Artist]\n[00:01.00]one\r\n[00:03.50]two\n\n[00:04.000]three\n";
    assert!(content_fits(LyricFormat::Lrc, text));
    let lyrics = parse_lrc_content(text).unwrap();
    assert_eq!(lyrics.title.as_deref(), Some("Title"));
    assert_eq!(lyrics.artist.as_deref(), Some("Artist"));
    let starts: Vec<u32> = lyrics.lines.iter().map(|l| l.start).collect();
    let durations: Vec<u32> = lyrics.lines.iter().map(|l| l.duration).collect();
    assert_eq!(starts, vec![1000, 3500, 4000]);
    assert_eq!(durations, vec![2500, 500, 5000]);
    assert_eq!(lyrics.lines[1].text, "two");
    assert_eq!(lyrics.lines[1].words.len(), 1);
    assert_eq!(lyrics.lines[1].words[0].text, "two");
}

#[test]
fn lrc_keeps_earlier_title_when_tag_is_empty() {
    let text = "[ti:First]\n[ti:]\n";
    let lyrics = parse_lrc_content(text).unwrap();
    assert_eq!(lyrics.title.as_deref(), Some("First"));
    // QRC replaces the title with what the tag gives, even nothing.
    let q = parse_qrc_content(text).unwrap();
    assert_eq!(q.title, None);
}

#[test]
fn lrc_out_of_order_lines_do_not_fit() {
    assert!(!content_fits(LyricFormat::Lrc, "[00:05.00]b\n[00:01.00]a\n"));
    assert!(content_fits(LyricFormat::Qrc, "[00:05.00]b\n[00:01.00]a\n"));
    // A line that starts with a multi-byte character before a `]`.
    assert!(!content_fits(LyricFormat::Krc, "你]x"));
    assert!(!content_fits(LyricFormat::Krc, "]x"));
    assert!(content_fits(LyricFormat::Krc, "你x"));
    // A timestamp beyond u32 milliseconds.
    assert!(!content_fits(LyricFormat::Lrc, "[99999:00]x"));
}

#[test]
fn qrc_lines() {
    let l = parse_qrc_line("[1500]  text ").unwrap();
    assert_eq!(l.start, 1500);
    assert_eq!(l.duration, 5000);
    assert_eq!(l.text, "  text ");
    assert!(l.words.is_empty());
    let l = parse_qrc_line("[00:02.00]x").unwrap();
    assert_eq!(l.start, 2000);
    assert!(parse_qrc_line("[x]y").is_none());
    // `[start,duration]text`.
    let l = parse_qrc_line("[1000,200]x").unwrap();
    assert_eq!((l.start, l.duration, l.text.as_str()), (1000, 200, "x"));
    let l = parse_qrc_line("[00:01.50,2500]<0,1,0>hi").unwrap();
    assert_eq!((l.start, l.duration), (1500, 2500));
    assert_eq!(l.text, "<0,1,0>hi");
    assert!(parse_qrc_line("[1000,x]y").is_none());
    assert!(parse_qrc_line("[1,2,3]y").is_none());
    assert!(parse_qrc_line("[1000,4294967296]y").is_none());
}

#[test]
fn krc_words_and_lines() {
    let (words, text) = parse_krc_words("<0,100,0>你<100,200,0>好");
    assert_eq!(text, "你好");
    assert_eq!(words.len(), 2);
    assert_eq!((words[1].start, words[1].duration), (100, 200));
    assert_eq!(words[1].text, "好");
    // Text before the first tag is dropped; a bad number counts as 0.
    let (words, text) = parse_krc_words("ab<x,5,0>c<7>d");
    assert_eq!(text, "c");
    assert_eq!(words.len(), 1);
    assert_eq!((words[0].start, words[0].duration), (0, 5));

    let line = parse_krc_line("[1234,456]<0,100,0>你<100,200,0>好").unwrap();
    assert_eq!((line.start, line.duration), (1234, 456));
    assert_eq!(line.text, "你好");
    assert!(parse_krc_line("[1234]<0,1,0>x").is_none());
    assert!(parse_krc_line("[1,2,3]<0,1,0>x").is_none());
}

#[test]
fn krc_content_skips_offset() {
    let text = "\u{feff}[ti:歌]\n[offset:0]\n[0,1000]<0,500,0>a<500,500,0>b\n";
    let lyrics = parse_krc_content(text.trim_start_matches('\u{feff}')).unwrap();
    assert_eq!(lyrics.title.as_deref(), Some("歌"));
    assert_eq!(lyrics.lines.len(), 1);
    assert_eq!(lyrics.lines[0].text, "ab");
}

#[test]
fn word_highlights_follow_position() {
    let mut lyrics = Lyrics::empty();
    lyrics.lines.push(LyricLine {
        start: 1000,
        duration: 2000,
        words: vec![
            LyricWord { text: "a".into(), start: 0, duration: 500 },
            LyricWord { text: "b".into(), start: 500, duration: 500 },
        ],
        text: "ab".into(),
    });
    lyrics.lines.push(LyricLine { start: 3000, duration: 1000, words: vec![], text: "c".into() });
    let h = lyrics.get_word_highlights(1200, 0).unwrap();
    assert_eq!(h.iter().map(|w| w.highlighted).collect::<Vec<_>>(), vec![true, false]);
    let h = lyrics.get_word_highlights(500, 0).unwrap();
    assert_eq!(h.iter().map(|w| w.highlighted).collect::<Vec<_>>(), vec![true, false]);
    let h = lyrics.get_word_highlights(1500, 0).unwrap();
    assert_eq!(h.iter().map(|w| w.highlighted).collect::<Vec<_>>(), vec![true, true]);
    assert!(lyrics.get_word_highlights(3100, 1).is_none());
    assert!(lyrics.get_word_highlights(0, 2).is_none());
}

#[test]
fn find_line_first_match_and_gaps() {
    let mut lyrics = Lyrics::empty();
    lyrics.lines.push(LyricLine { start: 0, duration: 1000, words: vec![], text: "a".into() });
    lyrics.lines.push(LyricLine { start: 2000, duration: 1000, words: vec![], text: "b".into() });
    assert_eq!(lyrics.find_line(1500), None);
    assert_eq!(lyrics.find_line(999), Some(0));
    assert_eq!(lyrics.find_line(1000), None);
    assert_eq!(lyrics.find_line(2000), Some(1));
}

#[test]
fn line_at_keeps_the_current_line_between_lines() {
    let lyrics = parse_lrc_content("[00:01.00]a\n[00:02.00]b\n").unwrap();
    assert!(lyrics.times_fit());
    assert_eq!(lyrics.line_at(500, None), None);
    assert_eq!(lyrics.line_at(1500, None), Some(0));
    assert_eq!(lyrics.line_at(2000, Some(0)), Some(1));
    // The last LRC line lasts five seconds; after it the line stays.
    assert_eq!(lyrics.line_at(6999, Some(0)), Some(1));
    assert_eq!(lyrics.line_at(7000, Some(1)), Some(1));
    let mut gap = Lyrics::empty();
    gap.lines.push(LyricLine { start: 0, duration: 100, words: vec![], text: "x".into() });
    gap.lines.push(LyricLine { start: 500, duration: 100, words: vec![], text: "y".into() });
    assert_eq!(gap.line_at(300, Some(0)), Some(0));
    assert_eq!(gap.line_at(300, Some(7)), Some(7));
}

#[test]
fn times_fit_detects_overflowing_lines() {
    let mut lyrics = Lyrics::empty();
    assert!(lyrics.times_fit());
    lyrics.lines.push(LyricLine { start: u32::MAX - 10, duration: 10, words: vec![], text: "a".into() });
    assert!(lyrics.times_fit());
    lyrics.lines.push(LyricLine { start: u32::MAX - 10, duration: 11, words: vec![], text: "b".into() });
    assert!(!lyrics.times_fit());
}

#[test]
fn lrc_lines_tile_the_timeline() {
    let lyrics = parse_lrc_content("[00:00.50]a\n[00:00.50]b\n[00:02.25]c\n[01:00]d\n").unwrap();
    for w in lyrics.lines.windows(2) {
        assert_eq!(w[0].start + w[0].duration, w[1].start);
    }
    assert_eq!(lyrics.lines.last().unwrap().duration, 5000);
    // The line on screen is the last one started.
    assert_eq!(lyrics.find_line(1000), Some(1));
    assert_eq!(lyrics.find_line(2250), Some(2));
    assert_eq!(lyrics.find_line(64_999), Some(3));
    assert_eq!(lyrics.find_line(65_000), None);
}
