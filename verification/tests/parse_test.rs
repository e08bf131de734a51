use flate2::write::GzEncoder;
use flate2::Compression;
use std::io::Write;

use soundvault_lib::error::ScanError;
use soundvault_lib::parse::{analyze_events, attr, parse_project, parse_u64, SampleContext, XmlEvent, XmlKind};
use soundvault_lib::readonly::ReadOnlyProject;

fn gz(xml: &str) -> Vec<u8> {
    let mut enc = GzEncoder::new(Vec::new(), Compression::default());
    enc.write_all(xml.as_bytes()).unwrap();
    enc.finish().unwrap()
}

fn project(name: &str) -> ReadOnlyProject {
    ReadOnlyProject::new(format!("/tmp/{name}"), format!("/tmp/{name}/{name}.als"))
}

const MINIMAL_XML: &str = r#"<?xml version="1.0" encoding="UTF-8"?>
<Ableton MajorVersion="5" Creator="Ableton Live 12.0.0">
  <LiveSet>
    <Tracks>
      <GroupTrack Id="100">
        <Name><EffectiveName Value="DRUMS"/></Name>
        <TrackGroupId Value="-1"/>
      </GroupTrack>
      <AudioTrack Id="101">
        <Name><EffectiveName Value="CLAP"/></Name>
        <TrackGroupId Value="100"/>
        <DeviceChain>
          <MainSequencer>
            <ClipSlotList>
              <ClipSlot>
                <AudioClip>
                  <SampleRef>
                    <FileRef>
                      <Path Value="/tmp/clap.wav"/>
                      <OriginalFileSize Value="12345"/>
                      <OriginalCrc Value="42"/>
                    </FileRef>
                  </SampleRef>
                </AudioClip>
              </ClipSlot>
            </ClipSlotList>
          </MainSequencer>
        </DeviceChain>
      </AudioTrack>
    </Tracks>
  </LiveSet>
</Ableton>"#;

#[test]
fn parses_basic_sample_ref_with_group_path() {
    let ro = project("MyProj");
    let result = parse_project(&ro, &gz(MINIMAL_XML)).unwrap();
    assert_eq!(result.samples.len(), 1);
    let s = &result.samples[0];
    assert_eq!(s.filename, "clap.wav");
    assert_eq!(s.declared_size, Some(12345));
    assert_eq!(s.group_path, vec!["DRUMS".to_string(), "CLAP".to_string()]);
    assert_eq!(s.context, SampleContext::AudioClip);
}

const NESTED_GROUPS_XML: &str = r#"<?xml version="1.0"?>
<Ableton>
  <LiveSet>
    <Tracks>
      <GroupTrack Id="100"><Name><EffectiveName Value="DRUMS"/></Name><TrackGroupId Value="-1"/></GroupTrack>
      <GroupTrack Id="110"><Name><EffectiveName Value="Snares, Claps, &amp; Rims"/></Name><TrackGroupId Value="100"/></GroupTrack>
      <GroupTrack Id="111"><Name><EffectiveName Value="CLAP"/></Name><TrackGroupId Value="110"/></GroupTrack>
      <AudioTrack Id="200">
        <Name><EffectiveName Value="my clap track"/></Name>
        <TrackGroupId Value="111"/>
        <AudioClip>
          <SampleRef>
            <FileRef>
              <Path Value="/x/clap.wav"/>
              <OriginalFileSize Value="100"/>
            </FileRef>
          </SampleRef>
        </AudioClip>
      </AudioTrack>
    </Tracks>
  </LiveSet>
</Ableton>"#;

const TAKE_LANE_XML: &str = r#"<?xml version="1.0"?>
<Ableton>
  <LiveSet><Tracks>
    <AudioTrack Id="1">
      <Name><EffectiveName Value="Vox"/></Name>
      <TrackGroupId Value="-1"/>
      <TakeLanes>
        <TakeLane>
          <AudioClip>
            <SampleRef>
              <FileRef>
                <Path Value="/x/take1.wav"/>
              </FileRef>
            </SampleRef>
          </AudioClip>
        </TakeLane>
      </TakeLanes>
    </AudioTrack>
  </Tracks></LiveSet>
</Ableton>"#;

const SAMPLER_XML: &str = r#"<?xml version="1.0"?>
<Ableton>
  <LiveSet><Tracks>
    <MidiTrack Id="1">
      <Name><EffectiveName Value="Sampler"/></Name>
      <TrackGroupId Value="-1"/>
      <DeviceChain>
        <OriginalSimpler>
          <Player>
            <MultiSampleMap>
              <SampleParts>
                <MultiSamplePart>
                  <SampleRef>
                    <FileRef>
                      <Path Value="/x/sampler.wav"/>
                    </FileRef>
                  </SampleRef>
                </MultiSamplePart>
              </SampleParts>
            </MultiSampleMap>
          </Player>
        </OriginalSimpler>
      </DeviceChain>
    </MidiTrack>
  </Tracks></LiveSet>
</Ableton>"#;

#[test]
fn nested_groups_resolve_three_deep() {
    let r = parse_project(&project("Nested"), &gz(NESTED_GROUPS_XML)).unwrap();
    assert_eq!(r.samples.len(), 1);
    let s = &r.samples[0];
    assert_eq!(
        s.group_path,
        vec!["DRUMS".to_string(), "Snares, Claps, & Rims".to_string(), "CLAP".to_string(), "my clap track".to_string()]
    );
    assert_eq!(s.context, SampleContext::AudioClip);
}

#[test]
fn detects_take_lane_context() {
    let r = parse_project(&project("TakeLane"), &gz(TAKE_LANE_XML)).unwrap();
    assert_eq!(r.samples.len(), 1);
    assert_eq!(r.samples[0].context, SampleContext::TakeLane);
}

#[test]
fn detects_sampler_context() {
    let r = parse_project(&project("Sampler"), &gz(SAMPLER_XML)).unwrap();
    assert_eq!(r.samples.len(), 1);
    assert_eq!(r.samples[0].context, SampleContext::Sampler);
}

#[test]
fn project_fields_and_track_name_are_filled() {
    let r = parse_project(&project("MyProj"), &gz(MINIMAL_XML)).unwrap();
    assert_eq!(r.project_name, "MyProj");
    assert_eq!(r.project_root, "/tmp/MyProj");
    assert_eq!(r.als_path, "/tmp/MyProj/MyProj.als");
    let s = &r.samples[0];
    assert_eq!(s.path, "/tmp/clap.wav");
    assert_eq!(s.declared_crc, Some(42));
    assert_eq!(s.track_name.as_deref(), Some("CLAP"));
    assert_eq!(s.project_name, "MyProj");
    assert_eq!(s.project_root, "/tmp/MyProj");
    assert_eq!(s.original_path, None);
}

#[test]
fn relative_path_and_source_context() {
    let xml = r#"<Ableton><LiveSet><Tracks>
      <AudioTrack Id="7">
        <AudioClip>
          <SampleRef>
            <FileRef>
              <RelativePath Value="Samples/Imported/hat.wav"/>
            </FileRef>
            <SourceContext>
              <SourceContext>
                <OriginalFileRef>
                  <FileRef>
                    <Path Value="/orig/hat.wav"/>
                  </FileRef>
                </OriginalFileRef>
              </SourceContext>
            </SourceContext>
          </SampleRef>
        </AudioClip>
      </AudioTrack>
    </Tracks></LiveSet></Ableton>"#;
    let r = parse_project(&project("Rel"), &gz(xml)).unwrap();
    assert_eq!(r.samples.len(), 1);
    let s = &r.samples[0];
    assert_eq!(s.path, "/tmp/Rel/Samples/Imported/hat.wav");
    assert_eq!(s.filename, "hat.wav");
    assert_eq!(s.original_path.as_deref(), Some("/orig/hat.wav"));
    assert_eq!(s.group_path, vec!["Track 7".to_string()]);
    assert_eq!(s.track_name, None);
}

#[test]
fn sample_refs_without_a_path_are_skipped() {
    let xml = r#"<Ableton><AudioTrack Id="1"><AudioClip><SampleRef><FileRef><Path Value=""/></FileRef></SampleRef></AudioClip></AudioTrack></Ableton>"#;
    let r = parse_project(&project("Empty"), &gz(xml)).unwrap();
    assert!(r.samples.is_empty());
}

#[test]
fn sample_outside_any_track_has_no_group() {
    let xml = r#"<Ableton><SampleRef><FileRef><Path Value="/a/b.wav"/><OriginalFileSize Value="+7"/></FileRef></SampleRef></Ableton>"#;
    let r = parse_project(&project("Loose"), &gz(xml)).unwrap();
    assert_eq!(r.samples.len(), 1);
    assert!(r.samples[0].group_path.is_empty());
    assert_eq!(r.samples[0].context, SampleContext::Unknown);
    assert_eq!(r.samples[0].declared_size, Some(7));
}

#[test]
fn malformed_xml_is_an_xml_error() {
    let r = parse_project(&project("Bad"), &gz("<Ableton><LiveSet></Ableton>"));
    match r {
        Err(ScanError::Xml { path, message }) => {
            assert_eq!(path, "/tmp/Bad/Bad.als");
            assert!(!message.is_empty());
        },
        _ => panic!("expected an XML error"),
    }
}

#[test]
fn non_gzip_input_is_an_xml_error() {
    let r = parse_project(&project("Raw"), b"not gzip at all");
    match r {
        Err(ScanError::Xml { path, message }) => {
            assert_eq!(path, "/tmp/Raw/Raw.als");
            assert!(message.starts_with("I/O error: "));
        },
        _ => panic!("expected an XML error"),
    }
}

fn tag(kind: XmlKind, name: &str, attrs: &[(&str, &str)]) -> XmlEvent {
    XmlEvent {
        kind,
        name: name.as_bytes().to_vec(),
        attrs: attrs.iter().map(|(k, v)| (k.as_bytes().to_vec(), v.as_bytes().to_vec())).collect(),
    }
}

#[test]
fn events_drive_the_reader() {
    let events = vec![
        tag(XmlKind::Start, "GroupTrack", &[("Id", "5")]),
        tag(XmlKind::Start, "Name", &[]),
        tag(XmlKind::Empty, "EffectiveName", &[("Value", "Perc")]),
        tag(XmlKind::End, "Name", &[]),
        tag(XmlKind::End, "GroupTrack", &[]),
        tag(XmlKind::Start, "MidiTrack", &[("Id", "6")]),
        tag(XmlKind::Empty, "TrackGroupId", &[("Value", " 5 ")]),
        tag(XmlKind::Start, "OriginalSimpler", &[]),
        tag(XmlKind::Start, "TakeLane", &[]),
        tag(XmlKind::Start, "SampleRef", &[]),
        tag(XmlKind::Empty, "Path", &[("Value", "/s/one.aif")]),
        tag(XmlKind::Empty, "OriginalCrc", &[("Value", "18446744073709551616")]),
        tag(XmlKind::End, "SampleRef", &[]),
        tag(XmlKind::End, "TakeLane", &[]),
        tag(XmlKind::End, "OriginalSimpler", &[]),
        tag(XmlKind::End, "MidiTrack", &[]),
    ];
    let s = analyze_events("P".to_string(), "/p".to_string(), &events);
    assert_eq!(s.len(), 1);
    assert_eq!(s[0].context, SampleContext::TakeLane);
    assert_eq!(s[0].declared_crc, None);
    assert_eq!(s[0].track_name, None);
    // The parent id " 5 " is not "5": the walk stops at the track itself.
    assert_eq!(s[0].group_path, vec!["Track 6".to_string()]);
}

#[test]
fn attributes_are_decoded_and_first_wins() {
    let e = tag(XmlKind::Empty, "X", &[("Value", "a &lt; b"), ("Value", "second"), ("Bad", "&nope;")]);
    assert_eq!(attr(&e, "Value").as_deref(), Some("a < b"));
    assert_eq!(attr(&e, "Bad").as_deref(), Some("&nope;"));
    assert_eq!(attr(&e, "Missing"), None);
}

#[test]
fn u64_parsing_follows_std() {
    assert_eq!(parse_u64("0"), Some(0));
    assert_eq!(parse_u64("+12"), Some(12));
    assert_eq!(parse_u64("18446744073709551615"), Some(u64::MAX));
    assert_eq!(parse_u64("18446744073709551616"), None);
    assert_eq!(parse_u64(""), None);
    assert_eq!(parse_u64("+"), None);
    assert_eq!(parse_u64("-1"), None);
    assert_eq!(parse_u64(" 1"), None);
    assert_eq!(parse_u64("1a"), None);
}
