use feheim::platform::{candidate_tags, HostArch, HostOs};

#[test]
fn apple_silicon_tags() {
    assert_eq!(
        candidate_tags(HostOs::MacOs, HostArch::Aarch64),
        vec![
            "arm64_sequoia", "arm64_sonoma", "arm64_ventura", "arm64_monterey", "arm64_big_sur", "all"
        ]
    );
}

#[test]
fn intel_mac_tags() {
    assert_eq!(
        candidate_tags(HostOs::MacOs, HostArch::Other),
        vec!["sequoia", "sonoma", "ventura", "monterey", "big_sur", "all"]
    );
}

#[test]
fn linux_and_other_tags() {
    assert_eq!(candidate_tags(HostOs::Linux, HostArch::Other), vec!["x86_64_linux", "all"]);
    assert_eq!(candidate_tags(HostOs::Linux, HostArch::Aarch64), vec!["x86_64_linux", "all"]);
    assert_eq!(candidate_tags(HostOs::Other, HostArch::Other), vec!["all"]);
}

#[test]
fn tags_always_end_with_all() {
    for os in [HostOs::MacOs, HostOs::Linux, HostOs::Other] {
        for arch in [HostArch::Aarch64, HostArch::Other] {
            let os2 = match os { HostOs::MacOs => HostOs::MacOs, HostOs::Linux => HostOs::Linux, HostOs::Other => HostOs::Other };
            let arch2 = match arch { HostArch::Aarch64 => HostArch::Aarch64, HostArch::Other => HostArch::Other };
            let tags = candidate_tags(os2, arch2);
            assert_eq!(tags.last().map(|s| s.as_str()), Some("all"));
            assert_eq!(tags.iter().filter(|t| t.as_str() == "all").count(), 1);
            let mut sorted = tags.clone();
            sorted.sort();
            sorted.dedup();
            assert_eq!(sorted.len(), tags.len());
        }
    }
}
