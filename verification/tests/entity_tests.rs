use nwc::entity::{collect_entity_dirs, plan_preservation, preserve_is_downgrade, PreserveStep};

fn p(parts: &str) -> Vec<String> {
    parts.split('/').filter(|x| !x.is_empty()).map(|x| x.to_string()).collect()
}

fn world_dirs() -> Vec<Vec<String>> {
    vec![
        p("dimensions"),
        p("dimensions/minecraft"),
        p("dimensions/minecraft/overworld"),
        p("dimensions/minecraft/overworld/entities"),
        p("dimensions/mynamespace"),
        p("dimensions/mynamespace/custom_dim"),
        p("dimensions/mynamespace/custom_dim/entities"),
        p("dimensions/minecraft/the_end"),
        p("dimensions/minecraft/the_end/poi"),
        p("world"),
        p("world/entities"),
        p("region"),
        p("playerdata"),
    ]
}

fn copies(steps: &[PreserveStep]) -> Vec<(String, String)> {
    steps
        .iter()
        .filter_map(|s| match s {
            PreserveStep::Copy(a, b) => Some((a.join("/"), b.join("/"))),
            PreserveStep::Remove(_) => None,
        })
        .collect()
}

#[test]
fn preserve_covers_all_namespaces_on_downgrade() {
    let plan = plan_preservation(&world_dirs(), "1.21.10", "1.20.6");
    assert!(plan.downgrade);
    let copied = copies(&plan.steps);
    for relative in [
        "dimensions/minecraft/overworld/entities",
        "dimensions/mynamespace/custom_dim/entities",
        "dimensions/minecraft/the_end/poi",
        "world/entities",
        "playerdata",
    ] {
        assert!(
            copied.contains(&(relative.to_string(), format!("_NWC_preserved_source/{relative}"))),
            "缺少保留数据：{relative}"
        );
    }
    assert_eq!(copied.len(), 5);
    assert!(plan.steps.iter().all(|s| matches!(s, PreserveStep::Copy(_, _))));
    assert_eq!(
        plan.readme.unwrap(),
        "这是降级转换（1.21.10 → 1.20.6）。\n本目录保存了目标版本无法表达的源实体、POI 与玩家数据，转换器不会静默丢弃它们。\n原 ZIP 始终未修改；如需完整数据请继续使用原存档。\n"
    );
}

#[test]
fn upgrade_preserves_custom_namespace_in_place() {
    let dirs = vec![
        p("dimensions"),
        p("dimensions/mynamespace"),
        p("dimensions/mynamespace/custom_dim"),
        p("dimensions/mynamespace/custom_dim/entities"),
    ];
    let plan = plan_preservation(&dirs, "1.20.6", "1.21.10");
    assert!(!plan.downgrade);
    assert!(plan.readme.is_none());
    assert!(matches!(&plan.steps[0], PreserveStep::Remove(x) if x.join("/") == "dimensions/mynamespace/custom_dim/entities"));
    assert_eq!(
        copies(&plan.steps),
        vec![(
            "dimensions/mynamespace/custom_dim/entities".to_string(),
            "dimensions/mynamespace/custom_dim/entities".to_string()
        )]
    );
    // the old layout is cleared from the output
    assert_eq!(plan.steps.len(), 2 + 6);
    assert!(matches!(&plan.steps[7], PreserveStep::Remove(x) if x.join("/") == "DIM1/poi"));
}

#[test]
fn entity_directories_sorted_without_repetition() {
    let mut dirs = world_dirs();
    dirs.push(p("world/entities"));
    dirs.push(p("DIM-1/poi"));
    let found: Vec<String> = collect_entity_dirs(&dirs).iter().map(|d| d.join("/")).collect();
    assert_eq!(
        found,
        vec![
            "DIM-1/poi",
            "dimensions/minecraft/overworld/entities",
            "dimensions/minecraft/the_end/poi",
            "dimensions/mynamespace/custom_dim/entities",
            "world/entities",
        ]
    );
}

#[test]
fn unreadable_versions_count_as_downgrade() {
    assert!(preserve_is_downgrade("1.21.10", "1.20.6"));
    assert!(!preserve_is_downgrade("1.20.6", "1.21.10"));
    assert!(!preserve_is_downgrade("1.21.10", "1.21.10"));
    assert!(preserve_is_downgrade("DataVersion 3953", "1.21.10"));
    let plan = plan_preservation(&vec![p("region")], "x", "y");
    assert!(plan.downgrade);
    assert!(plan.steps.is_empty());
    assert!(plan.readme.is_none());
}
