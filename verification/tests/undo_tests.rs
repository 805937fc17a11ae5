use editpad::document::{Document, LineEnding};
use editpad::editor::{BlankKind, BlockSel, CaseKind, CursorPos, EditorCore, ImeCommit, Motion, SortOrder, TabSpaceKind, TrimMode};
use editpad::sampling::{rope_line_bodies, strip_newlines, XorShift64};

fn core_with(text: &str) -> EditorCore {
    let mut c = EditorCore::default();
    c.reset_document(Document::from_str(text));
    c
}

fn assert_structural_invariants(c: &EditorCore) {
    assert!(
        c.cursor.col <= c.line_display_len(c.cursor.line),
        "光标列越界：{:?} 行长 {}",
        c.cursor,
        c.line_display_len(c.cursor.line)
    );
    assert!(c.cursor.line < c.doc.line_count(), "光标行越界");
    if let Some(a) = c.anchor {
        assert!(a.col <= c.line_display_len(a.line), "锚点列越界");
        assert!(a.line < c.doc.line_count(), "锚点行越界");
    }
    for &l in &c.bookmarked_lines() {
        assert!(l < c.doc.line_count(), "书签行越界：{l} / 行数 {}", c.doc.line_count());
    }
}

#[test]
fn typing_run_merges_consecutive_single_chars_into_one_undo() {
    let mut c = core_with("");
    for ch in ["a", "b", "c"] {
        c.insert_str(ch);
    }
    assert_eq!(c.doc.to_text(), "abc");
    assert!(c.undo());
    assert_eq!(c.doc.to_text(), "");
    assert!(!c.undo(), "组内只有一份快照，一步即到输入前");
    assert!(c.redo());
    assert_eq!(c.doc.to_text(), "abc", "重做整体恢复该组");
}

#[test]
fn typing_run_breaks_on_cursor_motion() {
    let mut c = core_with("");
    c.insert_str("a");
    c.insert_str("b");
    c.apply_motion(Motion::Left, false, 20);
    c.insert_str("c");
    assert_eq!(c.doc.to_text(), "acb");
    assert!(c.undo());
    assert_eq!(c.doc.to_text(), "ab", "移动后的输入独立成组");
    assert!(c.undo());
    assert_eq!(c.doc.to_text(), "", "移动前的连续输入是另一组");
}

#[test]
fn typing_run_breaks_on_newline_paste_and_selection_replace() {
    let mut c = core_with("");
    c.insert_str("a");
    c.insert_str("\n");
    c.insert_str("b");
    assert_eq!(c.doc.to_text(), "a\nb");
    assert!(c.undo());
    assert_eq!(c.doc.to_text(), "a\n", "b 独立成组");
    assert!(c.undo());
    assert_eq!(c.doc.to_text(), "a");

    let mut c = core_with("");
    c.insert_str("hello");
    c.insert_str("!");
    assert!(c.undo());
    assert_eq!(c.doc.to_text(), "hello", "! 是独立组");
    assert!(c.undo());
    assert_eq!(c.doc.to_text(), "");

    let mut c = core_with("xyz");
    c.select_span(0, 1, 1);
    c.replace_selection("-");
    c.insert_str("!");
    assert!(c.undo());
    assert_eq!(c.doc.to_text(), "x-z", "! 独立成组");
    assert!(c.undo());
    assert_eq!(c.doc.to_text(), "xyz");
}

#[test]
fn typing_run_survives_scrolling_but_not_focus_loss_or_undo() {
    let mut c = core_with("seed\n");
    c.cursor = CursorPos { line: 0, col: 4 };
    c.insert_str("a");
    c.insert_str("b");
    assert_eq!(c.doc.to_text(), "seedab\n");
    assert!(c.undo());
    assert_eq!(c.doc.to_text(), "seed\n", "滚动不打断成组：ab 一起撤销");

    c.insert_str("c");
    c.pointer_focus(false);
    c.insert_str("d");
    assert_eq!(c.doc.to_text(), "seedcd\n");
    assert!(c.undo());
    assert_eq!(c.doc.to_text(), "seedc\n", "失焦后的输入独立成组");

    c.insert_str("e");
    c.insert_str("f");
    assert!(c.undo());
    assert_eq!(c.doc.to_text(), "seedc\n", "ef 同组一起撤销");
    c.insert_str("g");
    assert_eq!(c.doc.to_text(), "seedcg\n", "undo 后的输入开新组");
    assert!(
        c.redo_stack.is_empty(),
        "undo 后的新编辑必须作废被撤销的重做链"
    );
    assert!(c.undo());
    assert_eq!(c.doc.to_text(), "seedc\n", "只撤掉 g 本身");
}

#[test]
fn undo_stack_capacity_bumps_to_512_groups() {
    let mut c = core_with("");
    for i in 0..600 {
        c.insert_str(&format!("{}", i % 10));
        c.apply_motion(Motion::Left, false, 20);
        c.apply_motion(Motion::Right, false, 20);
    }
    assert_eq!(c.undo_stack.len(), 512, "容量上限提升到 512 组");
    for _ in 0..512 {
        assert!(c.undo());
    }
    assert_eq!(
        c.doc.to_text(),
        "0123456789".repeat(8) + "01234567",
        "淘汰后最早退到第 89 组快照，而非空文档"
    );
    assert!(!c.undo(), "栈已耗尽");
}

#[test]
fn saved_baseline_tracks_save_and_revert_cycle() {
    let mut c = core_with("");
    assert!(c.is_at_saved_content(), "初始空内容应在基线上");

    c.insert_str("hello");
    assert!(!c.is_at_saved_content());
    c.mark_saved();
    assert!(c.is_at_saved_content());

    c.insert_str("!");
    assert!(!c.is_at_saved_content());
    assert!(c.undo());
    assert!(c.is_at_saved_content(), "撤销回基线应判定与磁盘一致");
    assert!(c.redo());
    assert!(!c.is_at_saved_content(), "重做离开基线");
}

#[test]
fn reset_document_installs_new_baseline() {
    let mut c = core_with("");
    c.insert_str("stale");
    c.mark_saved();
    c.reset_document(Document::from_str("fresh\r\ndoc"));
    assert!(c.is_at_saved_content());
    c.insert_str("x");
    assert!(!c.is_at_saved_content());
    assert!(c.undo());
    assert!(c.is_at_saved_content());
    assert_eq!(c.doc.to_text(), "fresh\r\ndoc");
}

#[test]
fn cleared_baseline_is_conservative_until_marked_saved_again() {
    let mut c = core_with("");
    c.insert_str("快照恢复出的草稿");
    c.clear_saved_baseline();
    assert!(!c.is_at_saved_content(), "无基线时必须保守判定为偏离");

    c.insert_str("!");
    assert!(c.undo());
    assert!(!c.is_at_saved_content());
    assert!(c.redo());
    assert!(!c.is_at_saved_content());

    c.mark_saved();
    assert!(c.is_at_saved_content());
    c.insert_str("x");
    assert!(c.undo());
    assert!(c.is_at_saved_content());
}

#[test]
fn undo_tests_select_span_and_replace_selection() {
    let mut c = core_with("你好世界");
    c.select_span(0, 1, 2);
    assert_eq!(c.selected_text().as_deref(), Some("好世"));
    c.replace_selection("-");
    assert_eq!(c.doc.to_text(), "你-界");
    assert_eq!(c.cursor, CursorPos { line: 0, col: 2 });
}

#[test]
fn random_mixed_ops_preserve_invariants_undo_replays_exactly() {
    const TOKENS: &[&str] = &[
        "a", "Z", "9", "中", "文", "🚀", "ß", " ", "\t", "  ", "\n", "\r\n",
    ];
    let motions = [
        Motion::Left,
        Motion::Right,
        Motion::Up,
        Motion::Down,
        Motion::Home,
        Motion::End,
    ];
    for seed in [1u64, 0xDEAD_BEEF, 0x5EED_1234] {
        let mut rng = XorShift64(seed);
        let mut init = String::new();
        for _ in 0..rng.below(20) + 5 {
            init.push_str(TOKENS[rng.below(TOKENS.len())]);
        }
        let initial = init.clone();
        let mut c = core_with(&init);

        for step in 0..240 {
            let old_text = c.doc.to_text();
            match rng.below(100) {
                0..=34 => {
                    let text: String = (0..rng.below(3) + 1)
                        .map(|_| TOKENS[rng.below(TOKENS.len())])
                        .collect();
                    c.insert_str(&text);
                }
                35..=49 => {
                    c.backspace();
                }
                50..=59 => {
                    c.delete_forward();
                }
                60..=74 => {
                    let m = motions[rng.below(motions.len())];
                    c.apply_motion(m, rng.below(4) == 0, 20);
                }
                75..=79 => c.select_all(),
                80..=87 => {
                    if c.anchor.is_some() {
                        c.apply_motion(Motion::Left, false, 20);
                    }
                    let kind = if rng.below(2) == 0 {
                        CaseKind::Upper
                    } else {
                        CaseKind::Lower
                    };
                    let expected = match kind {
                        CaseKind::Upper => strip_newlines(&old_text).to_uppercase(),
                        CaseKind::Lower => strip_newlines(&old_text).to_lowercase(),
                        CaseKind::Title => unreachable!("the fuzz never picks Title"),
                    };
                    let _changed = c.convert_case(kind);
                    assert_eq!(
                        strip_newlines(&c.doc.to_text()),
                        expected,
                        "seed={seed} step={step} 大小写对拍发散"
                    );
                    assert_eq!(
                        c.doc.line_count(),
                        rope_line_bodies(&old_text).len(),
                        "seed={seed} step={step} 大小写转换改变行数"
                    );
                }
                88..=94 => {
                    if c.anchor.is_some() {
                        c.apply_motion(Motion::Left, false, 20);
                    }
                    let mode =
                        [TrimMode::Leading, TrimMode::Trailing, TrimMode::Both][rng.below(3)];
                    let before = rope_line_bodies(&old_text);
                    let _changed = c.trim_touched_lines(mode);
                    let after = rope_line_bodies(&c.doc.to_text());
                    assert_eq!(
                        after.len(),
                        before.len(),
                        "seed={seed} step={step} 清理改变行数"
                    );
                    for (i, (o, n)) in before.iter().zip(after.iter()).enumerate() {
                        let want = match mode {
                            TrimMode::Leading => o.trim_start(),
                            TrimMode::Trailing => o.trim_end(),
                            TrimMode::Both => o.trim(),
                        };
                        assert_eq!(n, want, "seed={seed} step={step} 第 {i} 行清理结果不符");
                    }
                }
                95..=96 => {
                    let _ = c.undo();
                }
                97..=98 => match rng.below(4) {
                    0 => {
                        c.toggle_bookmark();
                    }
                    1 => {
                        let _ = c.next_bookmark(rng.below(2) == 0);
                    }
                    2 => {
                        let _ = c.clear_bookmarks();
                    }
                    _ => {}
                },
                99 => {
                    let _ = c.redo();
                }
                _ => {
                    let _ = c.undo();
                }
            }
            assert_structural_invariants(&c);
        }

        let final_text = c.doc.to_text();
        let final_marks = c.bookmarked_lines();
        while c.undo() {}
        assert_eq!(c.doc.to_text(), initial, "seed={seed} 撤销到底未回初始态");
        assert!(
            c.bookmarked_lines().is_empty(),
            "seed={seed} 撤销到底书签未随快照清空"
        );
        while c.redo() {}
        assert_eq!(c.doc.to_text(), final_text, "seed={seed} 重放终态发散");
        assert_eq!(
            c.bookmarked_lines(),
            final_marks,
            "seed={seed} 重放终态书签发散"
        );
    }
}

#[test]
fn random_line_block_ops_lf_docs_match_oracles() {
    const TOK: &[&str] = &["a", "Z", "中", " ", "  ", "// x", "# y"];
    for seed in [7u64, 0xBEEF_5EED, 42] {
        let mut rng = XorShift64(seed);
        let rows = rng.below(6) + 2;
        let mut init: Vec<String> = Vec::new();
        for _ in 0..rows {
            let mut s = String::new();
            for _ in 0..rng.below(4) {
                s.push_str(TOK[rng.below(TOK.len())]);
            }
            init.push(s);
        }
        let trailing_nl = rng.below(2) == 0;
        let mut text = init.join("\n");
        if trailing_nl {
            text.push('\n');
        }
        let initial = text.clone();
        let mut c = core_with(&text);

        for step in 0..160 {
            let cur_text = c.doc.to_text();
            let bodies = rope_line_bodies(&cur_text);
            let ends_nl = cur_text.ends_with('\n');
            let real: &[String] = if ends_nl && bodies.last().is_some_and(|s| s.is_empty()) {
                &bodies[..bodies.len() - 1]
            } else {
                &bodies[..]
            };
            let cur = c.cursor.line.min(real.len().saturating_sub(1));
            c.anchor = None;
            c.cursor = CursorPos { line: cur, col: 0 };
            let join = |b: &[String]| -> String {
                let mut t = b.join("\n");
                if ends_nl && !t.is_empty() {
                    t.push('\n');
                }
                t
            };
            match rng.below(100) {
                0..=24 => {
                    let expected = if cur + 1 < real.len() {
                        let merged = [real[cur].trim(), real[cur + 1].trim()]
                            .iter()
                            .filter(|s| !s.is_empty())
                            .map(|s| s.to_string())
                            .collect::<Vec<_>>()
                            .join(" ");
                        let mut nb = real[..cur].to_vec();
                        nb.push(merged);
                        nb.extend_from_slice(&real[cur + 2..]);
                        join(&nb)
                    } else {
                        cur_text.clone()
                    };
                    let _changed = c.merge_lines();
                    assert_eq!(
                        c.doc.to_text(),
                        expected,
                        "seed={seed} step={step} 合并发散"
                    );
                }
                25..=49 => {
                    let col = rng.below(real[cur].chars().count() + 1);
                    c.cursor.col = col;
                    let pre: String = real[cur].chars().take(col).collect();
                    let post: String = real[cur].chars().skip(col).collect();
                    let mut nb = real[..cur].to_vec();
                    nb.push(pre);
                    nb.push(post);
                    nb.extend_from_slice(&real[cur + 1..]);
                    let expected = join(&nb);
                    assert!(c.split_line());
                    assert_eq!(
                        c.doc.to_text(),
                        expected,
                        "seed={seed} step={step} 拆分发散"
                    );
                }
                50..=74 => {
                    let kind = if rng.below(2) == 0 {
                        BlankKind::Empty
                    } else {
                        BlankKind::Whitespace
                    };
                    let blank = |s: &str| {
                        kind == BlankKind::Whitespace && s.trim().is_empty() || s.is_empty()
                    };
                    let kept: Vec<String> = real.iter().filter(|s| !blank(s)).cloned().collect();
                    let expected = if kept.len() == real.len() {
                        cur_text.clone()
                    } else if kept.is_empty() {
                        String::new()
                    } else {
                        join(&kept)
                    };
                    let _changed = c.delete_empty_lines(kind);
                    assert_eq!(
                        c.doc.to_text(),
                        expected,
                        "seed={seed} step={step} 删空行发散（kind={kind:?}）"
                    );
                }
                75..=94 => {
                    let nonblank: Vec<bool> = real.iter().map(|s| !s.trim().is_empty()).collect();
                    let all_commented = real
                        .iter()
                        .zip(nonblank.iter())
                        .all(|(s, &b)| !b || s.trim_start().starts_with("//"));
                    let expected_bodies: Vec<String> = real
                        .iter()
                        .enumerate()
                        .map(|(i, s)| {
                            if !nonblank[i] {
                                return s.clone();
                            }
                            let t = s.trim_start();
                            let ind = &s[..s.len() - t.len()];
                            if all_commented {
                                let rest = &t["//".len()..];
                                let rest = rest.strip_prefix(' ').unwrap_or(rest);
                                format!("{ind}{rest}")
                            } else {
                                format!("{ind}// {t}")
                            }
                        })
                        .collect();
                    let changed_expected = expected_bodies != real;
                    let changed = c.toggle_line_comment();
                    assert_eq!(
                        changed, changed_expected,
                        "seed={seed} step={step} 返回值不符"
                    );
                    assert_eq!(
                        c.doc.to_text(),
                        join(&expected_bodies),
                        "seed={seed} step={step} 注释切换发散"
                    );
                }
                _ => {
                    let m = if rng.below(2) == 0 {
                        Motion::End
                    } else {
                        Motion::Left
                    };
                    c.apply_motion(m, false, 20);
                }
            }
            assert_structural_invariants(&c);
        }

        let final_text = c.doc.to_text();
        while c.undo() {}
        assert_eq!(c.doc.to_text(), initial, "seed={seed} 撤销到底未回初始态");
        while c.redo() {}
        assert_eq!(c.doc.to_text(), final_text, "seed={seed} 重放终态发散");
    }
}

#[test]
fn random_column_block_inserts_match_oracle() {
    const TOK: &[&str] = &["a", "Z", "中", "  ", ""];
    const PLTOK: &[&str] = &["Z", "X-", "文", "99"];
    for seed in [7u64, 0xB9_B9, 42] {
        let mut rng = XorShift64(seed);
        let rows = rng.below(5) + 2;
        let mut init: Vec<String> = Vec::new();
        for _ in 0..rows {
            let mut s = String::new();
            for _ in 0..rng.below(4) {
                s.push_str(TOK[rng.below(TOK.len())]);
            }
            init.push(s);
        }
        let trailing_nl = rng.below(2) == 0;
        let mut text = init.join("\n");
        if trailing_nl {
            text.push('\n');
        }
        let initial = text.clone();
        let mut c = core_with(&text);

        for step in 0..120 {
            let cur_text = c.doc.to_text();
            let bodies = rope_line_bodies(&cur_text);
            let ends_nl = cur_text.ends_with('\n');
            let real: &[String] = if ends_nl && bodies.last().is_some_and(|s| s.is_empty()) {
                &bodies[..bodies.len() - 1]
            } else {
                &bodies[..]
            };
            let r0 = rng.below(real.len());
            let r1 = r0 + rng.below(real.len() - r0);
            let max_len = real[r0..=r1]
                .iter()
                .map(|s| s.chars().count())
                .max()
                .unwrap_or(0);
            let c0 = rng.below(max_len + 2);
            let c1 = c0 + rng.below(max_len + 3);
            c.block_sel = Some(BlockSel {
                anchor: CursorPos { line: r0, col: c0 },
                head: CursorPos { line: r1, col: c1 },
            });
            let pl: Vec<String> = if rng.below(2) == 0 {
                let k = rng.below(3) + 1;
                (0..k)
                    .map(|_| PLTOK[rng.below(PLTOK.len())].to_string())
                    .collect()
            } else {
                let k = rng.below(4) + 1;
                let start = rng.below(200) as i64 - 50;
                let step = rng.below(7) as i64 + 1;
                let step = if rng.below(4) == 0 { -step } else { step };
                (0..k)
                    .map(|i| (start + i as i64 * step).to_string())
                    .collect()
            };
            let payload = pl.join("\n");

            if r0 == r1 && c0 == c1 {
                assert!(!c.insert_into_block(&payload), "单点空块应 no-op");
                assert_eq!(c.doc.to_text(), cur_text, "单点空块不改文本");
                continue;
            }

            let block_rows = r1 - r0 + 1;
            let mut expected: Vec<String> = real.to_vec();
            for (i, r) in (r0..=r1).enumerate() {
                let chars: Vec<char> = expected[r].chars().collect();
                let a = c0.min(chars.len());
                let b = c1.min(chars.len());
                let fill = &pl[i % pl.len()];
                let mut line: String = chars[..a].iter().collect();
                line.push_str(fill);
                line.extend(&chars[b.max(a)..]);
                expected[r] = line;
            }
            let mut extra: Vec<String> = Vec::new();
            if pl.len() > block_rows {
                extra.extend_from_slice(&pl[block_rows..]);
            }
            let mut seq: Vec<String> = expected[..=r1].to_vec();
            let has_extra = !extra.is_empty();
            seq.extend(extra);
            seq.extend_from_slice(&expected[r1 + 1..]);
            let mut expected_text = seq.join("\n");
            if ends_nl || has_extra {
                expected_text.push('\n');
            }

            assert!(
                c.insert_into_block(&payload),
                "seed={seed} step={step} 应发生改动"
            );
            assert_eq!(
                c.doc.to_text(),
                expected_text,
                "seed={seed} step={step} 列块插入发散（块 {r0}..={r1} 列 {c0}..={c1}）"
            );
            assert_structural_invariants(&c);
        }

        let final_text = c.doc.to_text();
        while c.undo() {}
        assert_eq!(c.doc.to_text(), initial, "seed={seed} 撤销到底未回初始态");
        while c.redo() {}
        assert_eq!(c.doc.to_text(), final_text, "seed={seed} 重放终态发散");
    }
}
